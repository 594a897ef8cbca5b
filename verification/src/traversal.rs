//! Tracing a satoshi back, block by block, to the coinbase that minted it.
//!
//! The caller fetches the block that the traversal asks for and hands it over;
//! the traversal then moves to the output that the satoshi came from, or ends.
use crate::block::{
    BlockView, CompactedBlock, CompactedInput, CompactedTransaction, InputView, TransactionView,
};
use crate::lazy_block::{
    LazyBlock, LazyBlockTransaction, LazyBlockTransactionInput, MAX_TX_LEN,
};
use crate::ord::{Height, Sat, SUPPLY};
use crate::{block, block_format, hex_codec, lazy_block, ord, text, wire};
use vstd::prelude::*;
use vstd::string::*;

verus! {

/// A block's height and hash.
#[derive(Clone, Debug)]
pub struct BlockIdentifier {
    pub index: u64,
    pub hash: String,
}

/// A transaction's hash, in hexadecimal behind `0x`.
#[derive(Clone, Debug)]
pub struct TransactionIdentifier {
    pub hash: String,
}

/// Where a satoshi was minted, and in how many blocks its way there lies.
#[derive(Clone, Copy, Debug)]
pub struct TraversalResult {
    pub inscription_number: u64,
    pub ordinal_number: u64,
    pub transfers: u32,
}

impl TraversalResult {
    /// The height of the block that issues the satoshi.
    pub fn get_ordinal_coinbase_height(&self) -> (height: u64)
        requires
            self.ordinal_number < SUPPLY,
        ensures
            ord::first_sat(height as nat) <= self.ordinal_number,
            self.ordinal_number < ord::first_sat(height as nat + 1),
    {
        let sat = Sat(self.ordinal_number);
        sat.height().n()
    }

    /// The satoshi's place among those that its block issues.
    pub fn get_ordinal_coinbase_offset(&self) -> (offset: u64)
        requires
            self.ordinal_number < SUPPLY,
        ensures
            exists|height: nat|
                {
                    &&& #[trigger] ord::first_sat(height) + offset == self.ordinal_number
                    &&& offset < ord::block_subsidy(height)
                },
    {
        let sat = Sat(self.ordinal_number);
        let height = sat.height();
        let start = height.starting_sat().n();
        proof {
            let h = height.0 as nat;
            assert(ord::first_sat(h + 1) == ord::first_sat(h) + ord::block_subsidy(h));
            assert(ord::first_sat(h) + (self.ordinal_number - start) == self.ordinal_number);
        }
        self.ordinal_number - start
    }
}

/// The sum of the first `count` values.
pub open spec fn sum_first(values: Seq<u64>, count: nat) -> nat
    decreases count,
{
    if count == 0 {
        0
    } else {
        sum_first(values, (count - 1) as nat) + values[count - 1] as nat
    }
}

pub proof fn lemma_sum_monotone(values: Seq<u64>, few: nat, many: nat)
    requires
        few <= many,
    ensures
        sum_first(values, few) <= sum_first(values, many),
    decreases many,
{
    if few < many {
        lemma_sum_monotone(values, few, (many - 1) as nat);
    }
}

proof fn lemma_sum_bound(values: Seq<u64>, count: nat)
    ensures
        sum_first(values, count) <= 0xffff_ffff_ffff_ffff * count,
    decreases count,
{
    if count > 0 {
        lemma_sum_bound(values, (count - 1) as nat);
    }
}

/// The first index from `from` on at which the values up to and including it
/// add up to `target`, or the number of values where they never do.
pub open spec fn index_reaching(values: Seq<u64>, target: nat, from: nat) -> nat
    decreases values.len() - from,
{
    if from >= values.len() {
        values.len()
    } else if sum_first(values, from + 1) >= target {
        from
    } else {
        index_reaching(values, target, from + 1)
    }
}

/// The values of inputs.
pub open spec fn input_values(inputs: Seq<InputView>) -> Seq<u64> {
    inputs.map_values(|input: InputView| input.value)
}

impl TransactionView {
    pub open spec fn total_in(self) -> nat {
        sum_first(input_values(self.inputs), self.inputs.len())
    }

    pub open spec fn total_out(self) -> nat {
        sum_first(self.outputs, self.outputs.len())
    }

    /// What the transaction leaves to the coinbase.
    pub open spec fn fee(self) -> int {
        self.total_in() - self.total_out()
    }
}

/// The fees of the first `count` transactions.
pub open spec fn fees(txs: Seq<TransactionView>, count: nat) -> int
    decreases count,
{
    if count == 0 {
        0
    } else {
        fees(txs, (count - 1) as nat) + txs[count - 1].fee()
    }
}

/// The first transaction from `from` on with which the fees exceed `cut_off`,
/// or the number of transactions where they never do.
pub open spec fn fee_payer(txs: Seq<TransactionView>, cut_off: int, from: nat) -> nat
    decreases txs.len() - from,
{
    if from >= txs.len() {
        txs.len()
    } else if fees(txs, from + 1) > cut_off {
        from
    } else {
        fee_payer(txs, cut_off, from + 1)
    }
}

/// Whether the fee at `index`, and the fees up to it, are 64 bit numbers.
pub open spec fn fee_computable(txs: Seq<TransactionView>, index: int) -> bool {
    &&& txs[index].total_out() <= txs[index].total_in() <= u64::MAX
    &&& fees(txs, (index + 1) as nat) <= u64::MAX
}

/// How many transactions are looked at in the search for the payer of a fee.
pub open spec fn fees_looked_at(txs: Seq<TransactionView>, cut_off: int) -> nat {
    let payer = fee_payer(txs, cut_off, 0);
    if payer < txs.len() {
        payer + 1
    } else {
        payer
    }
}

/// A traversal under way: the satoshi is `ordinal_offset` into the output `vout`
/// of the transaction `txid`, which stands in the block `ordinal_block_number`.
#[derive(Clone, Copy, Debug)]
pub struct SatoshiPointTraversal {
    pub ordinal_offset: u64,
    pub ordinal_block_number: u32,
    pub txid: [u8; 8],
    pub vout: usize,
    pub hops: u32,
    pub inscription_number: u64,
}

#[verifier::ext_equal]
pub struct TraversalView {
    pub ordinal_offset: u64,
    pub ordinal_block_number: u32,
    pub txid: Seq<u8>,
    pub vout: nat,
    pub hops: u32,
    pub inscription_number: u64,
}

impl View for SatoshiPointTraversal {
    type V = TraversalView;

    open spec fn view(&self) -> TraversalView {
        TraversalView {
            ordinal_offset: self.ordinal_offset,
            ordinal_block_number: self.ordinal_block_number,
            txid: self.txid@,
            vout: self.vout as nat,
            hops: self.hops,
            inscription_number: self.inscription_number,
        }
    }
}

impl TraversalView {
    /// The traversal after one more block was asked for.
    pub open spec fn hopped(self) -> TraversalView {
        TraversalView { hops: (self.hops + 1) as u32, ..self }
    }

    /// The traversal when it goes on `offset` into the output that `input` spends.
    pub open spec fn moved_to(self, input: InputView, offset: nat) -> TraversalView {
        TraversalView {
            ordinal_offset: offset as u64,
            ordinal_block_number: input.block_height,
            txid: input.txin,
            vout: input.vout as nat,
            ..self
        }
    }

    /// How many satoshis the outputs of `tx` hold before the one that is traced.
    pub open spec fn sats_before(self, tx: TransactionView) -> nat {
        let count = if self.vout <= tx.outputs.len() {
            self.vout
        } else {
            tx.outputs.len()
        };
        sum_first(tx.outputs, count) + self.ordinal_offset as nat
    }

    /// From an output of `tx` to the output that `tx` spends for it: inputs fill
    /// outputs in order, first in, first out. Nothing changes where the inputs do
    /// not reach that far. `None` where a sum is no 64 bit number.
    pub open spec fn through_transaction(self, tx: TransactionView) -> Option<TraversalView> {
        let values = input_values(tx.inputs);
        let sats_out = self.sats_before(tx);
        let index = index_reaching(values, sats_out + 1, 0);
        if sats_out > u64::MAX {
            None
        } else if index >= values.len() {
            Some(self)
        } else if sum_first(values, index + 1) > u64::MAX {
            None
        } else {
            Some(
                self.moved_to(
                    tx.inputs[index as int],
                    (sats_out - sum_first(values, index)) as nat,
                ),
            )
        }
    }

    /// Through each of the first `count` transactions that has the identifier `txid`, in order.
    pub open spec fn through_transactions(
        self,
        txid: Seq<u8>,
        txs: Seq<TransactionView>,
        count: nat,
    ) -> Option<TraversalView>
        decreases count,
    {
        if count == 0 {
            Some(self)
        } else {
            match self.through_transactions(txid, txs, (count - 1) as nat) {
                None => None,
                Some(view) => if txs[count - 1].txid == txid {
                    view.through_transaction(txs[count - 1])
                } else {
                    Some(view)
                },
            }
        }
    }

    /// From the coinbase, `cut_off` beyond what it issues, to the output that the
    /// payer of that fee spends: the first that, with those before it, covers the
    /// payer's outputs. Nothing changes where the fees do not reach that far.
    /// `None` where a sum is no 64 bit number.
    pub open spec fn through_fees(self, cut_off: int, txs: Seq<TransactionView>) -> Option<
        TraversalView,
    > {
        let payer = fee_payer(txs, cut_off, 0);
        let tx = txs[payer as int];
        let values = input_values(tx.inputs);
        let index = index_reaching(values, tx.total_out(), 0);
        if exists|k: int|
            0 <= k < fees_looked_at(txs, cut_off) && !#[trigger] fee_computable(txs, k) {
            None
        } else if payer >= txs.len() {
            Some(self)
        } else {
            Some(
                self.moved_to(
                    tx.inputs[index as int],
                    (tx.total_out() - sum_first(values, index)) as nat,
                ),
            )
        }
    }

    /// The end of the traversal, `None` where the ordinal number has no 64 bits.
    pub open spec fn reached(self) -> Option<StepView> {
        let ordinal_number = ord::first_sat(self.ordinal_block_number as nat)
            + self.ordinal_offset;
        if ordinal_number > u64::MAX {
            None
        } else {
            Some(
                StepView::Reached(
                    TraversalResult {
                        inscription_number: self.inscription_number,
                        ordinal_number: ordinal_number as u64,
                        transfers: self.hops,
                    },
                ),
            )
        }
    }

    /// One step of the traversal, with the block that it asked for.
    pub open spec fn step(self, block: BlockView) -> Option<StepView> {
        let view = self.hopped();
        if self.hops == u32::MAX {
            None
        } else if block.coinbase_txid == self.txid {
            if self.ordinal_offset < block.coinbase_value {
                view.reached()
            } else {
                moved_step(
                    view.through_fees(
                        self.ordinal_offset - block.coinbase_value,
                        block.transactions,
                    ),
                )
            }
        } else {
            moved_step(
                view.through_transactions(
                    self.txid,
                    block.transactions,
                    block.transactions.len(),
                ),
            )
        }
    }

    /// One step of the traversal, with the block that it asked for in its stored form.
    pub open spec fn lazy_step(self, block: LazyBlock) -> Option<StepView> {
        let view = self.hopped();
        let pos = block.coinbase_pos();
        let coinbase_value = block_format::word_at(block.bytes@, pos + 8);
        let txs = lazy_transactions(block);
        let cut_off = self.ordinal_offset - coinbase_value;
        if self.hops == u32::MAX || block.tx_len > MAX_TX_LEN || pos + 8 > block.bytes@.len() {
            None
        } else if block.bytes@.subrange(pos, pos + 8) == self.txid {
            if pos + 16 > block.bytes@.len() {
                None
            } else if self.ordinal_offset < coinbase_value {
                view.reached()
            } else if exists|k: int|
                0 <= k < fees_looked_at(txs, cut_off) && !#[trigger] block.transaction_readable(
                    k,
                ) {
                None
            } else {
                moved_step(view.through_fees(cut_off, txs))
            }
        } else if !block.search_readable(self.txid, 0) {
            None
        } else {
            match block.find_from(self.txid, 0) {
                None => None,
                Some(index) => moved_step(view.through_transaction(block.transaction(index))),
            }
        }
    }
}

/// The transactions of a lazy block.
pub open spec fn lazy_transactions(block: LazyBlock) -> Seq<TransactionView> {
    Seq::new(block.tx_len as nat, |k: int| block.transaction(k))
}

/// What a step comes to.
pub enum StepView {
    Reached(TraversalResult),
    Moved(TraversalView),
}

pub open spec fn moved_step(view: Option<TraversalView>) -> Option<StepView> {
    match view {
        None => None,
        Some(view) => Some(StepView::Moved(view)),
    }
}

/// The sum of the first `count` values, if it is a 64 bit number.
pub(crate) fn checked_sum(values: &Vec<u64>, count: usize) -> (r: Option<u64>)
    requires
        count <= values@.len(),
    ensures
        match r {
            Some(sum) => sum == sum_first(values@, count as nat),
            None => sum_first(values@, count as nat) > u64::MAX,
        },
{
    let mut sum: u64 = 0;
    let mut i: usize = 0;
    while i < count
        invariant
            i <= count <= values@.len(),
            sum == sum_first(values@, i as nat),
        decreases count - i,
    {
        match sum.checked_add(values[i]) {
            Some(next) => {
                sum = next;
            },
            None => {
                proof {
                    lemma_sum_monotone(values@, i as nat + 1, count as nat);
                }
                return None;
            },
        }
        i = i + 1;
    }
    Some(sum)
}

/// The index at which the values add up to `target`, and the sum of those before it.
fn find_reaching(values: &Vec<u64>, target: u128) -> (r: (usize, u128))
    ensures
        r.0 == index_reaching(values@, target as nat, 0),
        r.0 <= values@.len(),
        r.1 == sum_first(values@, r.0 as nat),
{
    let mut before: u128 = 0;
    let mut i: usize = 0;
    while i < values.len()
        invariant
            i <= values@.len(),
            before == sum_first(values@, i as nat),
            index_reaching(values@, target as nat, 0) == index_reaching(
                values@,
                target as nat,
                i as nat,
            ),
        decreases values@.len() - i,
    {
        proof {
            lemma_sum_bound(values@, i as nat + 1);
            assert(values@.len() <= usize::MAX);
        }
        let with: u128 = before + values[i] as u128;
        if with >= target {
            return (i, before);
        }
        before = with;
        i = i + 1;
    }
    (i, before)
}

proof fn lemma_index_reaching(values: Seq<u64>, target: nat, from: nat)
    requires
        from <= values.len(),
        forall|k: nat| k < from ==> #[trigger] sum_first(values, k + 1) < target,
    ensures
        ({
            let index = index_reaching(values, target, from);
            &&& from <= index <= values.len()
            &&& index < values.len() ==> sum_first(values, index + 1) >= target
            &&& forall|k: nat| k < index ==> #[trigger] sum_first(values, k + 1) < target
        }),
    decreases values.len() - from,
{
    if from < values.len() && sum_first(values, from + 1) < target {
        lemma_index_reaching(values, target, from + 1);
    }
}

/// The values before the one that reaches `target` add up to less than it.
pub proof fn lemma_sum_before_reaching(values: Seq<u64>, target: nat)
    ensures
        ({
            let index = index_reaching(values, target, 0);
            &&& index <= values.len()
            &&& index < values.len() ==> sum_first(values, index + 1) >= target
            &&& index > 0 ==> sum_first(values, index) < target
            &&& sum_first(values, values.len()) >= target && values.len() > 0 ==> index
                < values.len()
        }),
{
    lemma_index_reaching(values, target, 0);
    let index = index_reaching(values, target, 0);
    if index > 0 {
        let k = (index - 1) as nat;
        assert(sum_first(values, k + 1) < target);
    }
}

fn compacted_input_values(inputs: &Vec<CompactedInput>) -> (values: Vec<u64>)
    ensures
        values@ == input_values(block::inputs_view(inputs@)),
{
    let mut values: Vec<u64> = Vec::new();
    let mut i: usize = 0;
    while i < inputs.len()
        invariant
            i <= inputs@.len(),
            values@ =~= input_values(block::inputs_view(inputs@)).take(i as int),
        decreases inputs@.len() - i,
    {
        values.push(inputs[i].3);
        i = i + 1;
    }
    values
}

fn lazy_input_values(inputs: &Vec<LazyBlockTransactionInput>) -> (values: Vec<u64>)
    ensures
        values@ == input_values(lazy_block::lazy_inputs_view(inputs@)),
{
    let mut values: Vec<u64> = Vec::new();
    let mut i: usize = 0;
    while i < inputs.len()
        invariant
            i <= inputs@.len(),
            values@ =~= input_values(lazy_block::lazy_inputs_view(inputs@)).take(i as int),
        decreases inputs@.len() - i,
    {
        values.push(inputs[i].txin_value);
        i = i + 1;
    }
    values
}

/// Which input of a transaction the traced satoshi comes from, and how far into it.
enum Source {
    /// The inputs do not reach that far.
    Beyond,
    /// The index of the input, and the offset into the output that it spends.
    Input(usize, u64),
}

impl SatoshiPointTraversal {
    /// The source, in a transaction with these inputs and outputs, of the satoshi that is traced.
    fn source(&self, values: &Vec<u64>, outputs: &Vec<u64>, tx: Ghost<TransactionView>) -> (r:
        Option<Source>)
        requires
            values@ == input_values(tx@.inputs),
            outputs@ == tx@.outputs,
        ensures
            match r {
                None => self@.through_transaction(tx@) is None,
                Some(Source::Beyond) => self@.through_transaction(tx@) == Some(self@),
                Some(Source::Input(index, offset)) => {
                    &&& index < tx@.inputs.len()
                    &&& self@.through_transaction(tx@) == Some(
                        self@.moved_to(tx@.inputs[index as int], offset as nat),
                    )
                },
            },
    {
        let count: usize = if self.vout <= outputs.len() {
            self.vout
        } else {
            outputs.len()
        };
        let before: u64 = match checked_sum(outputs, count) {
            Some(sum) => sum,
            None => {
                return None;
            },
        };
        let sats_out: u64 = match before.checked_add(self.ordinal_offset) {
            Some(sum) => sum,
            None => {
                return None;
            },
        };
        proof {
            lemma_sum_before_reaching(values@, sats_out as nat + 1);
        }
        let (index, sats_before) = find_reaching(values, sats_out as u128 + 1);
        if index >= values.len() {
            return Some(Source::Beyond);
        }
        if sats_before + values[index] as u128 > u64::MAX as u128 {
            return None;
        }
        Some(Source::Input(index, (sats_out as u128 - sats_before) as u64))
    }

    /// The traversal, gone on at `offset` into the output that an input spends.
    fn at_output(
        &self,
        txid: [u8; 8],
        block_height: u32,
        vout: usize,
        offset: u64,
        input: Ghost<InputView>,
    ) -> (r: SatoshiPointTraversal)
        requires
            input@.txin == txid@,
            input@.block_height == block_height,
            input@.vout == vout,
        ensures
            r@ == self@.moved_to(input@, offset as nat),
    {
        SatoshiPointTraversal {
            ordinal_offset: offset,
            ordinal_block_number: block_height,
            txid,
            vout,
            hops: self.hops,
            inscription_number: self.inscription_number,
        }
    }

    fn through_compacted_transactions(&self, txid: [u8; 8], txs: &Vec<CompactedTransaction>) -> (r:
        Option<SatoshiPointTraversal>)
        ensures
            match r {
                None => self@.through_transactions(
                    txid@,
                    block::transactions_view(txs@),
                    txs@.len(),
                ) is None,
                Some(next) => self@.through_transactions(
                    txid@,
                    block::transactions_view(txs@),
                    txs@.len(),
                ) == Some(next@),
            },
    {
        let ghost view = block::transactions_view(txs@);
        let mut now: SatoshiPointTraversal = *self;
        let mut i: usize = 0;
        while i < txs.len()
            invariant
                i <= txs@.len(),
                view == block::transactions_view(txs@),
                self@.through_transactions(txid@, view, i as nat) == Some(now@),
            decreases txs@.len() - i,
        {
            let tx = &txs[i];
            assert(view[i as int] == block::transaction_view(*tx));
            if wire::same_bytes(tx.0.as_slice(), txid.as_slice()) {
                let values = compacted_input_values(&tx.1);
                match now.source(&values, &tx.2, Ghost(view[i as int])) {
                    None => {
                        proof {
                            lemma_through_transactions_fails(
                                self@,
                                txid@,
                                view,
                                i as nat + 1,
                                txs@.len(),
                            );
                        }
                        return None;
                    },
                    Some(Source::Beyond) => {},
                    Some(Source::Input(index, offset)) => {
                        let input = &tx.1[index];
                        now =
                        now.at_output(
                            input.0,
                            input.1,
                            input.2 as usize,
                            offset,
                            Ghost(view[i as int].inputs[index as int]),
                        );
                    },
                }
            }
            i = i + 1;
        }
        Some(now)
    }

    fn through_compacted_fees(&self, cut_off: u64, txs: &Vec<CompactedTransaction>) -> (r: Option<
        SatoshiPointTraversal,
    >)
        ensures
            match r {
                None => self@.through_fees(cut_off as int, block::transactions_view(txs@)) is None,
                Some(next) => self@.through_fees(
                    cut_off as int,
                    block::transactions_view(txs@),
                ) == Some(next@),
            },
    {
        let ghost view = block::transactions_view(txs@);
        let ghost payer = fee_payer(view, cut_off as int, 0);
        let mut accumulated_fees: u64 = 0;
        let mut i: usize = 0;
        while i < txs.len()
            invariant
                i <= txs@.len(),
                view == block::transactions_view(txs@),
                payer == fee_payer(view, cut_off as int, 0),
                payer == fee_payer(view, cut_off as int, i as nat),
                accumulated_fees == fees(view, i as nat),
                accumulated_fees <= cut_off,
                forall|k: int| 0 <= k < i ==> #[trigger] fee_computable(view, k),
            decreases txs@.len() - i,
        {
            proof {
                lemma_fee_payer(view, cut_off as int, i as nat);
            }
            let tx = &txs[i];
            let ghost tx_view = view[i as int];
            assert(tx_view == block::transaction_view(*tx));
            let values = compacted_input_values(&tx.1);
            let (total_out, with) = match add_fee(
                accumulated_fees,
                &values,
                &tx.2,
                Ghost(view),
                Ghost(i as int),
            ) {
                Some(sums) => sums,
                None => {
                    assert(!fee_computable(view, i as int));
                    return None;
                },
            };
            if with > cut_off {
                let (index, offset) = fee_source(&values, total_out);
                let input = &tx.1[index];
                return Some(
                    self.at_output(
                        input.0,
                        input.1,
                        input.2 as usize,
                        offset,
                        Ghost(tx_view.inputs[index as int]),
                    ),
                );
            }
            accumulated_fees = with;
            i = i + 1;
        }
        Some(*self)
    }

    fn through_lazy_fees(&self, cut_off: u64, block: &LazyBlock) -> (r: Option<
        SatoshiPointTraversal,
    >)
        requires
            block.tx_len <= MAX_TX_LEN,
            block.coinbase_pos() <= block.bytes@.len(),
        ensures
            ({
                let txs = lazy_transactions(*block);
                let unreadable = exists|k: int|
                    0 <= k < fees_looked_at(txs, cut_off as int)
                        && !#[trigger] block.transaction_readable(k);
                match r {
                    None => unreadable || self@.through_fees(cut_off as int, txs) is None,
                    Some(next) => !unreadable && self@.through_fees(cut_off as int, txs) == Some(
                        next@,
                    ),
                }
            }),
    {
        let ghost view = lazy_transactions(*block);
        let ghost payer = fee_payer(view, cut_off as int, 0);
        let mut accumulated_fees: u64 = 0;
        let mut i: u16 = 0;
        let mut iter = block.iter_tx();
        while i < block.tx_len
            invariant
                i <= block.tx_len <= MAX_TX_LEN,
                block.coinbase_pos() <= block.bytes@.len(),
                view == lazy_transactions(*block),
                payer == fee_payer(view, cut_off as int, 0),
                payer == fee_payer(view, cut_off as int, i as nat),
                accumulated_fees == fees(view, i as nat),
                accumulated_fees <= cut_off,
                iter.wf(),
                iter.block() == block,
                iter.index() == i,
                forall|k: int|
                    0 <= k < i ==> #[trigger] fee_computable(view, k)
                        && block.transaction_readable(k),
                forall|k: int| 0 <= k < i ==> #[trigger] block.transaction_readable(k),
            decreases block.tx_len - i,
        {
            proof {
                lemma_fee_payer(view, cut_off as int, i as nat);
            }
            if !iter.has_readable_next() {
                assert(!block.transaction_readable(i as int));
                return None;
            }
            let tx = match iter.next() {
                Some(tx) => tx,
                None => {
                    return None;
                },
            };
            let ghost tx_view = view[i as int];
            assert(tx_view == tx@);
            let values = lazy_input_values(&tx.inputs);
            let (total_out, with) = match add_fee(
                accumulated_fees,
                &values,
                &tx.outputs,
                Ghost(view),
                Ghost(i as int),
            ) {
                Some(sums) => sums,
                None => {
                    assert(!fee_computable(view, i as int));
                    return None;
                },
            };
            if with > cut_off {
                let (index, offset) = fee_source(&values, total_out);
                let input = &tx.inputs[index];
                return Some(
                    self.at_output(
                        input.txin,
                        input.block_height,
                        input.vout as usize,
                        offset,
                        Ghost(tx_view.inputs[index as int]),
                    ),
                );
            }
            accumulated_fees = with;
            i = i + 1;
        }
        Some(*self)
    }
}

proof fn lemma_through_transactions_fails(
    view: TraversalView,
    txid: Seq<u8>,
    txs: Seq<TransactionView>,
    few: nat,
    many: nat,
)
    requires
        few <= many,
        view.through_transactions(txid, txs, few) is None,
    ensures
        view.through_transactions(txid, txs, many) is None,
    decreases many,
{
    if few < many {
        lemma_through_transactions_fails(view, txid, txs, few, (many - 1) as nat);
    }
}

pub proof fn lemma_fee_payer(txs: Seq<TransactionView>, cut_off: int, from: nat)
    requires
        from <= txs.len(),
    ensures
        from <= fee_payer(txs, cut_off, from) <= txs.len(),
    decreases txs.len() - from,
{
    if from < txs.len() && fees(txs, from + 1) <= cut_off {
        lemma_fee_payer(txs, cut_off, from + 1);
    }
}

/// The sum of the outputs of the transaction at `index`, and the fees up to and
/// including its own, if they are 64 bit numbers.
fn add_fee(
    accumulated_fees: u64,
    values: &Vec<u64>,
    outputs: &Vec<u64>,
    txs: Ghost<Seq<TransactionView>>,
    index: Ghost<int>,
) -> (r: Option<(u64, u64)>)
    requires
        0 <= index@ < txs@.len(),
        accumulated_fees == fees(txs@, index@ as nat),
        values@ == input_values(txs@[index@].inputs),
        outputs@ == txs@[index@].outputs,
    ensures
        match r {
            Some((total_out, with)) => {
                &&& fee_computable(txs@, index@)
                &&& total_out == txs@[index@].total_out()
                &&& with == fees(txs@, (index@ + 1) as nat)
            },
            None => !fee_computable(txs@, index@),
        },
{
    let total_in: u64 = match checked_sum(values, values.len()) {
        Some(sum) => sum,
        None => {
            return None;
        },
    };
    let total_out: u64 = match checked_sum(outputs, outputs.len()) {
        Some(sum) => sum,
        None => {
            return None;
        },
    };
    if total_out > total_in {
        return None;
    }
    match accumulated_fees.checked_add(total_in - total_out) {
        Some(with) => Some((total_out, with)),
        None => None,
    }
}

/// The input that covers the outputs of the payer of a fee, and how far into it the outputs go.
fn fee_source(values: &Vec<u64>, total_out: u64) -> (r: (usize, u64))
    requires
        total_out < sum_first(values@, values@.len()),
    ensures
        r.0 < values@.len(),
        r.0 == index_reaching(values@, total_out as nat, 0),
        r.1 == total_out - sum_first(values@, r.0 as nat),
{
    proof {
        lemma_sum_before_reaching(values@, total_out as nat);
        if values@.len() == 0 {
            assert(sum_first(values@, 0) == 0);
        }
    }
    let (index, before) = find_reaching(values, total_out as u128);
    (index, (total_out as u128 - before) as u64)
}

/// What a step of a traversal comes to.
#[derive(Debug)]
pub enum TraversalProgress {
    /// The coinbase that minted the satoshi was found.
    Reached(TraversalResult),
    /// The traversal goes on, and asks for another block.
    Moved(SatoshiPointTraversal),
}

impl View for TraversalProgress {
    type V = StepView;

    open spec fn view(&self) -> StepView {
        match *self {
            TraversalProgress::Reached(result) => StepView::Reached(result),
            TraversalProgress::Moved(traversal) => StepView::Moved(traversal@),
        }
    }
}

/// Whether `r` is the outcome `expected` of a step.
pub open spec fn is_progress(r: Option<TraversalProgress>, expected: Option<StepView>) -> bool {
    match r {
        None => expected is None,
        Some(progress) => expected == Some(progress@),
    }
}

/// Where the traversal of the first satoshi of a transaction starts.
pub open spec fn start_view(
    block_index: u64,
    hash: Seq<char>,
    inscription_number: u64,
) -> TraversalView {
    TraversalView {
        ordinal_offset: 0,
        ordinal_block_number: (block_index % 0x1_0000_0000) as u32,
        txid: hex_codec::short_prefixed_txid(hex_codec::utf8(hash)),
        vout: 0,
        hops: 0,
        inscription_number,
    }
}

/// What is said of a block that cannot be found.
pub open spec fn missing_block_message(block_number: u32) -> Seq<char> {
    "block #"@ + text::decimal(block_number as nat) + " not in database"@
}

impl SatoshiPointTraversal {
    /// The traversal of the first satoshi of the first output of a transaction.
    /// Of the block's height the lower 32 bits count. `None` where the
    /// transaction's hash is no hexadecimal identifier behind two bytes.
    pub fn try_new(
        block_identifier: &BlockIdentifier,
        transaction_identifier: &TransactionIdentifier,
        inscription_number: u64,
    ) -> (r: Option<SatoshiPointTraversal>)
        ensures
            match r {
                None => !hex_codec::is_prefixed_txid(
                    hex_codec::utf8(transaction_identifier.hash@),
                ),
                Some(traversal) => {
                    &&& hex_codec::is_prefixed_txid(hex_codec::utf8(transaction_identifier.hash@))
                    &&& traversal@ == start_view(
                        block_identifier.index,
                        transaction_identifier.hash@,
                        inscription_number,
                    )
                },
            },
    {
        match hex_codec::parse_prefixed_txid(transaction_identifier.hash.as_str()) {
            Some(txid) => {
                let index: u64 = block_identifier.index % 0x1_0000_0000;
                Some(
                    SatoshiPointTraversal {
                        ordinal_offset: 0,
                        ordinal_block_number: index as u32,
                        txid,
                        vout: 0,
                        hops: 0,
                        inscription_number,
                    },
                )
            },
            None => None,
        }
    }

    fn finish(&self) -> (r: Option<TraversalProgress>)
        ensures
            is_progress(r, self@.reached()),
    {
        let start: u64 = Height(self.ordinal_block_number as u64).starting_sat().0;
        match start.checked_add(self.ordinal_offset) {
            Some(ordinal_number) => Some(
                TraversalProgress::Reached(
                    TraversalResult {
                        inscription_number: self.inscription_number,
                        ordinal_number,
                        transfers: self.hops,
                    },
                ),
            ),
            None => None,
        }
    }

    /// One step of the traversal, with the block that it asked for. `None` where
    /// a sum has more than 64 bits, a transaction creates more than it spends, or
    /// the blocks can no longer be counted.
    pub fn step(&self, block: &CompactedBlock) -> (r: Option<TraversalProgress>)
        ensures
            is_progress(r, self@.step(block@)),
    {
        if self.hops == u32::MAX {
            return None;
        }
        let hopped = SatoshiPointTraversal { hops: self.hops + 1, ..*self };
        assert(hopped@ == self@.hopped());
        let coinbase_value: u64 = block.0.0.1;
        let moved = if wire::same_bytes(block.0.0.0.as_slice(), self.txid.as_slice()) {
            if self.ordinal_offset < coinbase_value {
                return hopped.finish();
            }
            hopped.through_compacted_fees(self.ordinal_offset - coinbase_value, &block.0.1)
        } else {
            hopped.through_compacted_transactions(self.txid, &block.0.1)
        };
        match moved {
            Some(next) => Some(TraversalProgress::Moved(next)),
            None => None,
        }
    }

    /// One step of the traversal, with the block that it asked for in its stored
    /// form. `None` where the block is cut short or lacks the transaction, and
    /// where a number has more bits than there are for it.
    pub fn lazy_step(&self, block: &LazyBlock) -> (r: Option<TraversalProgress>)
        ensures
            is_progress(r, self@.lazy_step(*block)),
    {
        if self.hops == u32::MAX || block.tx_len > MAX_TX_LEN {
            return None;
        }
        let pos: usize = block.get_coinbase_data_pos();
        if block.bytes.len() < pos + 8 {
            return None;
        }
        let hopped = SatoshiPointTraversal { hops: self.hops + 1, ..*self };
        assert(hopped@ == self@.hopped());
        let moved = if wire::same_bytes(block.get_coinbase_txid(), self.txid.as_slice()) {
            if block.bytes.len() < pos + 16 {
                return None;
            }
            let coinbase_value: u64 = block.get_coinbase_sats();
            if self.ordinal_offset < coinbase_value {
                return hopped.finish();
            }
            hopped.through_lazy_fees(self.ordinal_offset - coinbase_value, block)
        } else {
            if !block.is_search_readable(self.txid.as_slice()) {
                return None;
            }
            match block.find_and_serialize_transaction_with_txid(self.txid.as_slice()) {
                None => None,
                Some(tx) => hopped.through_lazy_transaction(&tx),
            }
        };
        match moved {
            Some(next) => Some(TraversalProgress::Moved(next)),
            None => None,
        }
    }

    fn through_lazy_transaction(&self, tx: &LazyBlockTransaction) -> (r: Option<
        SatoshiPointTraversal,
    >)
        ensures
            match r {
                None => self@.through_transaction(tx@) is None,
                Some(next) => self@.through_transaction(tx@) == Some(next@),
            },
    {
        let values = lazy_input_values(&tx.inputs);
        match self.source(&values, &tx.outputs, Ghost(tx@)) {
            None => None,
            Some(Source::Beyond) => Some(*self),
            Some(Source::Input(index, offset)) => {
                let input = &tx.inputs[index];
                Some(
                    self.at_output(
                        input.txin,
                        input.block_height,
                        input.vout as usize,
                        offset,
                        Ghost(tx@.inputs[index as int]),
                    ),
                )
            },
        }
    }
}

/// One round of tracing a satoshi through stored blocks. The caller looks for
/// the block `traversal.ordinal_block_number` and hands over what it found. The
/// satoshi's origin comes back when it is reached; while none comes back, the
/// caller looks for the block that `traversal` names next.
pub fn retrieve_satoshi_point_using_local_storage(
    traversal: &mut SatoshiPointTraversal,
    block: Option<&CompactedBlock>,
) -> (r: Result<Option<TraversalResult>, String>)
    requires
        block matches Some(found) ==> old(traversal)@.step(found@) is Some,
    ensures
        match block {
            None => {
                &&& *final(traversal) == *old(traversal)
                &&& r matches Err(message) && message@ == missing_block_message(
                    old(traversal).ordinal_block_number,
                )
            },
            Some(found) => match old(traversal)@.step(found@)->0 {
                StepView::Reached(result) => {
                    &&& *final(traversal) == *old(traversal)
                    &&& r == Ok::<Option<TraversalResult>, String>(Some(result))
                },
                StepView::Moved(view) => {
                    &&& final(traversal)@ == view
                    &&& r == Ok::<Option<TraversalResult>, String>(None)
                },
            },
        },
{
    match block {
        None => Err(missing_block(traversal.ordinal_block_number)),
        Some(found) => Ok(apply_progress(traversal, traversal.step(found))),
    }
}

/// One round of tracing a satoshi through blocks in their stored form, as
/// `retrieve_satoshi_point_using_local_storage` does it through decoded ones.
pub fn retrieve_satoshi_point_using_lazy_storage(
    traversal: &mut SatoshiPointTraversal,
    block: Option<&LazyBlock>,
) -> (r: Result<Option<TraversalResult>, String>)
    requires
        block matches Some(found) ==> old(traversal)@.lazy_step(*found) is Some,
    ensures
        match block {
            None => {
                &&& *final(traversal) == *old(traversal)
                &&& r matches Err(message) && message@ == missing_block_message(
                    old(traversal).ordinal_block_number,
                )
            },
            Some(found) => match old(traversal)@.lazy_step(*found)->0 {
                StepView::Reached(result) => {
                    &&& *final(traversal) == *old(traversal)
                    &&& r == Ok::<Option<TraversalResult>, String>(Some(result))
                },
                StepView::Moved(view) => {
                    &&& final(traversal)@ == view
                    &&& r == Ok::<Option<TraversalResult>, String>(None)
                },
            },
        },
{
    match block {
        None => Err(missing_block(traversal.ordinal_block_number)),
        Some(found) => Ok(apply_progress(traversal, traversal.lazy_step(found))),
    }
}

fn missing_block(block_number: u32) -> (message: String)
    ensures
        message@ == missing_block_message(block_number),
{
    let mut message = "block #".to_owned();
    text::push_decimal(&mut message, block_number);
    message.append(" not in database");
    message
}

fn apply_progress(
    traversal: &mut SatoshiPointTraversal,
    progress: Option<TraversalProgress>,
) -> (r: Option<TraversalResult>)
    requires
        progress is Some,
    ensures
        match progress->0 {
            TraversalProgress::Reached(result) => {
                *final(traversal) == *old(traversal) && r == Some(result)
            },
            TraversalProgress::Moved(next) => *final(traversal) == next && r is None,
        },
{
    match progress {
        Some(TraversalProgress::Reached(result)) => Some(result),
        Some(TraversalProgress::Moved(next)) => {
            *traversal = next;
            None
        },
        None => None,
    }
}

} // verus!
