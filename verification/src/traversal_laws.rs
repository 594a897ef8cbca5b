//! What holds of every traversal.
use crate::block::{BlockView, CompactedBlock, InputView, TransactionView};
use crate::lazy_block::{LazyBlock, MAX_TX_LEN};
use crate::ord::SUPPLY;
use crate::traversal::{
    SatoshiPointTraversal, StepView, TraversalProgress, TraversalResult, TraversalView,
};
use crate::{block, block_format, hex_codec, ord, text, traversal, wire};
use vstd::prelude::*;

verus! {

/// Inputs fill outputs first in, first out: the satoshi lies in the output that
/// is moved to, and as many satoshis come before it in the inputs as in the outputs.
pub proof fn law_first_in_first_out(view: TraversalView, tx: TransactionView)
    requires
        view.through_transaction(tx) is Some,
        view.sats_before(tx) < tx.total_in(),
    ensures
        exists|index: nat|
            {
                let next = view.through_transaction(tx)->0;
                let before = #[trigger] traversal::sum_first(
                    traversal::input_values(tx.inputs),
                    index,
                );
                &&& index < tx.inputs.len()
                &&& next == view.moved_to(tx.inputs[index as int], next.ordinal_offset as nat)
                &&& next.ordinal_offset < tx.inputs[index as int].value
                &&& before + next.ordinal_offset == view.sats_before(tx)
            },
{
    let values = traversal::input_values(tx.inputs);
    let target = view.sats_before(tx) + 1;
    let index = traversal::index_reaching(values, target, 0);
    traversal::lemma_sum_before_reaching(values, target);
    assert(index < values.len());
    assert(traversal::sum_first(values, index + 1) == traversal::sum_first(values, index)
        + values[index as int]);
    assert(traversal::sum_first(values, index) <= view.sats_before(tx));
}

/// A satoshi that the inputs of its transaction do not reach stays where it is.
pub proof fn law_unreached_satoshi_stays(view: TraversalView, tx: TransactionView)
    requires
        tx.total_in() <= view.sats_before(tx) <= u64::MAX,
    ensures
        view.through_transaction(tx) == Some(view),
{
    let values = traversal::input_values(tx.inputs);
    let target = view.sats_before(tx) + 1;
    let index = traversal::index_reaching(values, target, 0);
    traversal::lemma_sum_before_reaching(values, target);
    if index < values.len() {
        traversal::lemma_sum_monotone(values, index + 1, values.len());
    }
}

/// A sum of the first values is what adding them up from the front gives.
pub proof fn law_sum_first_adds_up(values: Seq<u64>, count: nat)
    requires
        count <= values.len(),
    ensures
        traversal::sum_first(values, count) == values.take(count as int).fold_left(
            0int,
            |total: int, value: u64| total + value,
        ),
    decreases count,
{
    if count > 0 {
        law_sum_first_adds_up(values, (count - 1) as nat);
        assert(values.take(count as int).drop_last() =~= values.take(count - 1));
    }
}

/// The values of inputs are their own, in their order.
pub proof fn law_input_values(inputs: Seq<InputView>, k: int)
    requires
        0 <= k < inputs.len(),
    ensures
        traversal::input_values(inputs).len() == inputs.len(),
        traversal::input_values(inputs)[k] == inputs[k].value,
{
}

proof fn lemma_source(view: TraversalView, tx: TransactionView, sats: nat)
    requires
        sats == view.sats_before(tx),
    ensures
        ({
            let values = traversal::input_values(tx.inputs);
            let index = traversal::index_reaching(values, sats + 1, 0);
            &&& index <= values.len() == tx.inputs.len()
            &&& (index < values.len() <==> sats < traversal::sum_first(values, values.len()))
            &&& index < values.len() ==> traversal::sum_first(values, index) <= sats
                < traversal::sum_first(values, index + 1)
            &&& index < values.len() ==> traversal::sum_first(values, index + 1)
                == traversal::sum_first(values, index) + tx.inputs[index as int].value
        }),
{
    let values = traversal::input_values(tx.inputs);
    let index = traversal::index_reaching(values, sats + 1, 0);
    traversal::lemma_sum_before_reaching(values, sats + 1);
    if index < values.len() {
        traversal::lemma_sum_monotone(values, index + 1, values.len());
        assert(values[index as int] == tx.inputs[index as int].value);
    }
}

/// Inputs fill outputs first in, first out. All the outputs before the traced
/// one come before the satoshi (all there are, where its index is beyond them),
/// and so does what lies before it in its own output; the satoshi comes from
/// the input that as many satoshis of the inputs come before.
pub proof fn law_satoshi_comes_from_its_input(
    view: TraversalView,
    tx: TransactionView,
    counted: nat,
)
    requires
        counted == view.vout <= tx.outputs.len() || counted == tx.outputs.len() < view.vout,
        view.through_transaction(tx) is Some,
        traversal::sum_first(tx.outputs, counted) + view.ordinal_offset < traversal::sum_first(
            traversal::input_values(tx.inputs),
            tx.inputs.len(),
        ),
    ensures
        exists|index: nat|
            {
                let next = view.through_transaction(tx)->0;
                let input = tx.inputs[index as int];
                let before = #[trigger] traversal::sum_first(
                    traversal::input_values(tx.inputs),
                    index,
                );
                &&& index < tx.inputs.len()
                &&& traversal::sum_first(tx.outputs, counted) + view.ordinal_offset == before
                    + next.ordinal_offset
                &&& next.ordinal_offset < input.value
                &&& next.txid == input.txin
                &&& next.ordinal_block_number == input.block_height
                &&& next.vout == input.vout
                &&& next.hops == view.hops
                &&& next.inscription_number == view.inscription_number
            },
{
    let sats = traversal::sum_first(tx.outputs, counted) + view.ordinal_offset as nat;
    let values = traversal::input_values(tx.inputs);
    lemma_source(view, tx, sats);
    let index = traversal::index_reaching(values, sats + 1, 0);
    assert(traversal::sum_first(values, index) <= sats);
}

/// A satoshi that lies beyond all satoshis of the inputs stays where it is.
pub proof fn law_satoshi_beyond_the_inputs_stays(
    view: TraversalView,
    tx: TransactionView,
    counted: nat,
)
    requires
        counted == view.vout <= tx.outputs.len() || counted == tx.outputs.len() < view.vout,
        traversal::sum_first(tx.outputs, counted) + view.ordinal_offset <= u64::MAX,
        traversal::sum_first(traversal::input_values(tx.inputs), tx.inputs.len())
            <= traversal::sum_first(tx.outputs, counted) + view.ordinal_offset,
    ensures
        view.through_transaction(tx) == Some(view),
{
    lemma_source(
        view,
        tx,
        traversal::sum_first(tx.outputs, counted) + view.ordinal_offset as nat,
    );
}

/// A transaction leads nowhere just when the satoshis before the traced one, or
/// those of the inputs up to the one it comes from, are too many to be counted.
pub proof fn law_transaction_leads_nowhere(
    view: TraversalView,
    tx: TransactionView,
    counted: nat,
)
    requires
        counted == view.vout <= tx.outputs.len() || counted == tx.outputs.len() < view.vout,
    ensures
        view.through_transaction(tx) is None <==> {
            let sats = traversal::sum_first(tx.outputs, counted) + view.ordinal_offset;
            let values = traversal::input_values(tx.inputs);
            ||| sats > u64::MAX
            ||| exists|index: nat|
                {
                    &&& index < tx.inputs.len()
                    &&& #[trigger] traversal::sum_first(values, index) <= sats
                    &&& sats < traversal::sum_first(values, index + 1)
                    &&& traversal::sum_first(values, index + 1) > u64::MAX
                }
        },
{
    let sats = traversal::sum_first(tx.outputs, counted) + view.ordinal_offset as nat;
    let values = traversal::input_values(tx.inputs);
    lemma_source(view, tx, sats);
    let found = traversal::index_reaching(values, sats + 1, 0);
    assert forall|index: nat|
        {
            &&& index < tx.inputs.len()
            &&& #[trigger] traversal::sum_first(values, index) <= sats
            &&& sats < traversal::sum_first(values, index + 1)
        } implies index == found by {
        if index < found {
            traversal::lemma_sum_monotone(values, index + 1, found);
        } else {
            traversal::lemma_sum_monotone(values, index + 1, values.len());
            if found < index {
                traversal::lemma_sum_monotone(values, found + 1, index);
            }
        }
    }
}

/// Transactions are gone through in their order. One with another identifier
/// changes nothing, and after one that leads nowhere there is nothing more.
pub proof fn law_transactions_in_turn(
    view: TraversalView,
    txid: Seq<u8>,
    txs: Seq<TransactionView>,
    count: nat,
)
    requires
        count < txs.len(),
    ensures
        view.through_transactions(txid, txs, 0) == Some(view),
        txs[count as int].txid != txid ==> view.through_transactions(txid, txs, count + 1)
            == view.through_transactions(txid, txs, count),
        txs[count as int].txid == txid ==> {
            match view.through_transactions(txid, txs, count) {
                None => view.through_transactions(txid, txs, count + 1) is None,
                Some(reached) => view.through_transactions(txid, txs, count + 1)
                    == reached.through_transaction(txs[count as int]),
            }
        },
{
}

/// Fees are what inputs have over outputs, added up in the order of the transactions.
pub proof fn law_fees_add_up(txs: Seq<TransactionView>, count: nat)
    requires
        count < txs.len(),
    ensures
        traversal::fees(txs, 0) == 0,
        ({
            let tx = txs[count as int];
            let total_in = traversal::sum_first(
                traversal::input_values(tx.inputs),
                tx.inputs.len(),
            );
            let total_out = traversal::sum_first(tx.outputs, tx.outputs.len());
            traversal::fees(txs, count + 1) == traversal::fees(txs, count) + total_in - total_out
        }),
{
}

proof fn lemma_payer(txs: Seq<TransactionView>, cut_off: int, from: nat)
    requires
        from <= txs.len(),
        forall|k: nat| k < from ==> #[trigger] traversal::fees(txs, k + 1) <= cut_off,
    ensures
        ({
            let payer = traversal::fee_payer(txs, cut_off, from);
            &&& from <= payer <= txs.len()
            &&& forall|k: nat| k < payer ==> #[trigger] traversal::fees(txs, k + 1) <= cut_off
            &&& payer < txs.len() ==> traversal::fees(txs, payer + 1) > cut_off
        }),
    decreases txs.len() - from,
{
    if from < txs.len() && traversal::fees(txs, from + 1) <= cut_off {
        lemma_payer(txs, cut_off, from + 1);
    }
}

/// A satoshi that lies `cut_off` beyond what the coinbase issues comes from the
/// transaction whose fee takes the fees past `cut_off`: from the first input
/// that, with those before it, covers the outputs, and as far into it as the
/// outputs go.
pub proof fn law_fee_comes_from_its_payer(
    view: TraversalView,
    cut_off: int,
    txs: Seq<TransactionView>,
    payer: nat,
)
    requires
        0 <= cut_off,
        view.through_fees(cut_off, txs) is Some,
        payer < txs.len(),
        forall|k: nat| k < payer ==> #[trigger] traversal::fees(txs, k + 1) <= cut_off,
        cut_off < traversal::fees(txs, payer + 1),
    ensures
        ({
            let next = view.through_fees(cut_off, txs)->0;
            let tx = txs[payer as int];
            let values = traversal::input_values(tx.inputs);
            let total_out = traversal::sum_first(tx.outputs, tx.outputs.len());
            exists|index: nat|
                {
                    let input = tx.inputs[index as int];
                    let before = #[trigger] traversal::sum_first(values, index);
                    &&& index < tx.inputs.len()
                    &&& total_out <= traversal::sum_first(values, index + 1)
                    &&& index > 0 ==> before < total_out
                    &&& before + next.ordinal_offset == total_out
                    &&& next.txid == input.txin
                    &&& next.ordinal_block_number == input.block_height
                    &&& next.vout == input.vout
                    &&& next.hops == view.hops
                    &&& next.inscription_number == view.inscription_number
                }
        }),
{
    lemma_payer(txs, cut_off, 0);
    let found = traversal::fee_payer(txs, cut_off, 0);
    if found < payer {
        assert(traversal::fees(txs, found + 1) <= cut_off);
    } else if payer < found {
        assert(traversal::fees(txs, payer + 1) <= cut_off);
    }
    let tx = txs[payer as int];
    let values = traversal::input_values(tx.inputs);
    assert(traversal::fee_computable(txs, payer as int));
    if payer > 0 {
        let k = (payer - 1) as nat;
        assert(traversal::fees(txs, k + 1) <= cut_off);
    }
    assert(traversal::fees(txs, payer) <= cut_off);
    assert(traversal::fees(txs, payer + 1) == traversal::fees(txs, payer) + tx.fee());
    assert(tx.total_out() < tx.total_in());
    traversal::lemma_sum_before_reaching(values, tx.total_out());
    let index = traversal::index_reaching(values, tx.total_out(), 0);
    assert(traversal::sum_first(values, index) <= tx.total_out());
    traversal::lemma_sum_monotone(values, index, values.len());
}

/// A satoshi beyond all fees stays where it is.
pub proof fn law_satoshi_beyond_the_fees_stays(
    view: TraversalView,
    cut_off: int,
    txs: Seq<TransactionView>,
)
    requires
        view.through_fees(cut_off, txs) is Some,
        forall|k: nat| k < txs.len() ==> #[trigger] traversal::fees(txs, k + 1) <= cut_off,
    ensures
        view.through_fees(cut_off, txs) == Some(view),
{
    lemma_payer(txs, cut_off, 0);
    let found = traversal::fee_payer(txs, cut_off, 0);
    if found < txs.len() {
        assert(traversal::fees(txs, found + 1) <= cut_off);
    }
}

/// Fees lead nowhere just when a transaction up to the payer has outputs that
/// exceed its inputs, or sums that are too great to be counted.
pub proof fn law_fees_lead_nowhere(
    view: TraversalView,
    cut_off: int,
    txs: Seq<TransactionView>,
)
    ensures
        view.through_fees(cut_off, txs) is None <==> exists|k: nat|
            {
                let tx = #[trigger] txs[k as int];
                let total_in = traversal::sum_first(
                    traversal::input_values(tx.inputs),
                    tx.inputs.len(),
                );
                let total_out = traversal::sum_first(tx.outputs, tx.outputs.len());
                &&& k < txs.len()
                &&& forall|j: nat| j < k ==> #[trigger] traversal::fees(txs, j + 1) <= cut_off
                &&& total_out > total_in || total_in > u64::MAX || traversal::fees(txs, k + 1)
                    > u64::MAX
            },
{
    lemma_payer(txs, cut_off, 0);
    let found = traversal::fee_payer(txs, cut_off, 0);
    let looked_at = traversal::fees_looked_at(txs, cut_off);
    if view.through_fees(cut_off, txs) is None {
        let k = choose|k: int|
            0 <= k < looked_at && !#[trigger] traversal::fee_computable(txs, k);
        let tx = txs[(k as nat) as int];
        assert(k <= found);
        assert forall|j: nat| j < k implies #[trigger] traversal::fees(txs, j + 1) <= cut_off by {
            assert(j < found);
        }
        assert(tx.total_out() > tx.total_in() || tx.total_in() > u64::MAX || traversal::fees(
            txs,
            (k as nat) + 1,
        ) > u64::MAX);
    }
    assert forall|k: nat|
        {
            let tx = #[trigger] txs[k as int];
            &&& k < txs.len()
            &&& forall|j: nat| j < k ==> #[trigger] traversal::fees(txs, j + 1) <= cut_off
            &&& tx.total_out() > tx.total_in() || tx.total_in() > u64::MAX || traversal::fees(
                txs,
                k + 1,
            ) > u64::MAX
        } implies view.through_fees(cut_off, txs) is None by {
        if found < k {
            assert(traversal::fees(txs, found + 1) <= cut_off);
        }
        assert(0 <= k < looked_at && !traversal::fee_computable(txs, k as int));
    }
}

/// In the coinbase that issues the satoshi a traversal ends, with the number of
/// the block's first satoshi and so many more, if that number can be held and
/// the block counted.
pub proof fn law_coinbase_ends_a_traversal(view: TraversalView, block: BlockView)
    requires
        block.coinbase_txid == view.txid,
        view.ordinal_offset < block.coinbase_value,
    ensures
        match view.step(block) {
            Some(StepView::Reached(result)) => {
                &&& view.hops < u32::MAX
                &&& result.ordinal_number == ord::first_sat(view.ordinal_block_number as nat)
                    + view.ordinal_offset
                &&& result.inscription_number == view.inscription_number
                &&& result.transfers == view.hops + 1
            },
            Some(StepView::Moved(_)) => false,
            None => view.hops == u32::MAX || ord::first_sat(view.ordinal_block_number as nat)
                + view.ordinal_offset > u64::MAX,
        },
{
}

/// A traversal that a coinbase does not end goes on through the fees, from a
/// coinbase, or through the transactions, from anywhere else, and counts the block.
pub proof fn law_other_blocks_move_a_traversal(view: TraversalView, block: BlockView)
    requires
        block.coinbase_txid != view.txid || view.ordinal_offset >= block.coinbase_value,
    ensures
        ({
            let counted = TraversalView { hops: (view.hops + 1) as u32, ..view };
            let moved = if block.coinbase_txid == view.txid {
                counted.through_fees(
                    view.ordinal_offset - block.coinbase_value,
                    block.transactions,
                )
            } else {
                counted.through_transactions(
                    view.txid,
                    block.transactions,
                    block.transactions.len(),
                )
            };
            match view.step(block) {
                Some(StepView::Moved(next)) => view.hops < u32::MAX && moved == Some(next),
                Some(StepView::Reached(_)) => false,
                None => view.hops == u32::MAX || moved is None,
            }
        }),
{
}

/// A step through a block in its stored form: what is read of the block decides.
pub proof fn law_lazy_steps(view: TraversalView, block: LazyBlock)
    ensures
        ({
            let counted = TraversalView { hops: (view.hops + 1) as u32, ..view };
            let pos = 2 + 2 * block.tx_len;
            let value = wire::be_value(block.bytes@.subrange(pos + 8, pos + 16));
            let readable = view.hops < u32::MAX && block.tx_len <= 32766 && pos + 8
                <= block.bytes@.len();
            let in_coinbase = block.bytes@.subrange(pos, pos + 8) == view.txid;
            let txs = traversal::lazy_transactions(block);
            let cut_off = view.ordinal_offset - value;
            let misses_a_payer = exists|k: int|
                {
                    &&& 0 <= k < block.tx_len
                    &&& !#[trigger] block.transaction_readable(k)
                    &&& forall|j: nat| j < k ==> #[trigger] traversal::fees(txs, j + 1) <= cut_off
                };
            match view.lazy_step(block) {
                Some(StepView::Reached(result)) => {
                    &&& readable && in_coinbase && pos + 16 <= block.bytes@.len()
                    &&& view.ordinal_offset < value
                    &&& result.ordinal_number == ord::first_sat(view.ordinal_block_number as nat)
                        + view.ordinal_offset
                },
                Some(StepView::Moved(next)) => {
                    &&& readable
                    &&& in_coinbase ==> {
                        &&& pos + 16 <= block.bytes@.len()
                        &&& view.ordinal_offset >= value
                        &&& !misses_a_payer
                        &&& counted.through_fees(cut_off, txs) == Some(next)
                    }
                    &&& !in_coinbase ==> exists|index: int|
                        {
                            let tx = #[trigger] block.transaction(index);
                            &&& block.find_from(view.txid, 0) == Some(index)
                            &&& tx.txid == view.txid
                            &&& counted.through_transaction(tx) == Some(next)
                        }
                },
                None => {
                    ||| !readable
                    ||| in_coinbase && pos + 16 > block.bytes@.len()
                    ||| in_coinbase && view.ordinal_offset < value && ord::first_sat(
                        view.ordinal_block_number as nat,
                    ) + view.ordinal_offset > u64::MAX
                    ||| in_coinbase && view.ordinal_offset >= value && (misses_a_payer
                        || counted.through_fees(cut_off, txs) is None)
                    ||| !in_coinbase && !block.search_readable(view.txid, 0)
                    ||| !in_coinbase && block.find_from(view.txid, 0) is None
                    ||| !in_coinbase && exists|index: int|
                        block.find_from(view.txid, 0) == Some(index)
                            && counted.through_transaction(#[trigger] block.transaction(index))
                            is None
                },
            }
        }),
{
    let pos = block.coinbase_pos();
    let value = block_format::word_at(block.bytes@, pos + 8);
    let txs = traversal::lazy_transactions(block);
    let cut_off = view.ordinal_offset - value;
    lemma_payer(txs, cut_off, 0);
    let payer = traversal::fee_payer(txs, cut_off, 0);
    let looked_at = traversal::fees_looked_at(txs, cut_off);
    assert forall|k: int|
        0 <= k < block.tx_len && (forall|j: nat|
            j < k ==> #[trigger] traversal::fees(txs, j + 1) <= cut_off)
            && !#[trigger] block.transaction_readable(k) implies k < looked_at by {
        if payer < k {
            assert(traversal::fees(txs, payer + 1) > cut_off);
        }
    }
    assert forall|k: int| 0 <= k < looked_at && !#[trigger] block.transaction_readable(k) implies {
        &&& k < block.tx_len
        &&& forall|j: nat| j < k ==> #[trigger] traversal::fees(txs, j + 1) <= cut_off
    } by {
        assert forall|j: nat| j < k implies #[trigger] traversal::fees(txs, j + 1) <= cut_off by {
            assert(j < payer);
        }
    }
    crate::lazy_format::law_search_finds_first(block, view.txid);
    if let Some(index) = block.find_from(view.txid, 0) {
        let tx = block.transaction(index);
        assert(tx.txid == view.txid);
    }
}

/// The transactions of a block in its stored form, as many as it says it has.
pub proof fn law_lazy_transactions(block: LazyBlock, k: int)
    requires
        0 <= k < block.tx_len,
    ensures
        traversal::lazy_transactions(block).len() == block.tx_len,
        traversal::lazy_transactions(block)[k] == block.transaction(k),
{
}

/// A traversal starts at the front of a transaction's first output, in the
/// block of that height, and has gone nowhere yet.
pub proof fn law_traversal_starts_at_the_front(
    block_index: u64,
    hash: Seq<char>,
    inscription_number: u64,
)
    requires
        block_index < 0x1_0000_0000,
    ensures
        ({
            let view = traversal::start_view(block_index, hash, inscription_number);
            &&& view.ordinal_offset == 0
            &&& view.vout == 0
            &&& view.hops == 0
            &&& view.inscription_number == inscription_number
            &&& view.ordinal_block_number == block_index
            &&& view.txid == hex_codec::hex_bytes(vstd::utf8::encode_utf8(hash).skip(2)).take(8)
        }),
{
}

/// Heights that differ by a multiple of 2 to the power of 32 start the same traversal.
pub proof fn law_traversal_starts_modulo_32_bits(
    block_index: u64,
    multiple: nat,
    hash: Seq<char>,
    inscription_number: u64,
)
    requires
        block_index + 0x1_0000_0000 * multiple <= u64::MAX,
    ensures
        traversal::start_view(
            (block_index + 0x1_0000_0000 * multiple) as u64,
            hash,
            inscription_number,
        ) == traversal::start_view(block_index, hash, inscription_number),
{
}

/// A traversal's parts are what they are called.
pub proof fn law_traversal_parts(traversal: &SatoshiPointTraversal)
    ensures
        traversal@.ordinal_offset == traversal.ordinal_offset,
        traversal@.ordinal_block_number == traversal.ordinal_block_number,
        traversal@.txid == traversal.txid@,
        traversal@.vout == traversal.vout,
        traversal@.hops == traversal.hops,
        traversal@.inscription_number == traversal.inscription_number,
{
}

/// What a step came to is what it was to come to, with the same result or at
/// the same place, or nothing where nothing was to come.
pub proof fn law_progress(r: Option<TraversalProgress>, expected: Option<StepView>)
    requires
        traversal::is_progress(r, expected),
    ensures
        r is None <==> expected is None,
        r matches Some(TraversalProgress::Reached(result)) ==> expected == Some(
            StepView::Reached(result),
        ),
        r matches Some(TraversalProgress::Moved(next)) ==> expected == Some(
            StepView::Moved(next@),
        ),
{
}

/// A missing block is named by its number.
pub proof fn law_missing_block_is_named(block_number: u32)
    ensures
        traversal::missing_block_message(block_number) == "block #"@ + text::decimal(
            block_number as nat,
        ) + " not in database"@,
{
}

/// What a step keeps, and what it ends with.
pub open spec fn is_sound_step(
    view: TraversalView,
    coinbase_value: nat,
    step: Option<StepView>,
) -> bool {
    match step {
        None => true,
        Some(StepView::Moved(next)) => {
            &&& next.hops == view.hops + 1
            &&& next.inscription_number == view.inscription_number
        },
        Some(StepView::Reached(result)) => {
            &&& result.transfers == view.hops + 1
            &&& result.inscription_number == view.inscription_number
            &&& view.ordinal_offset < coinbase_value
            &&& result.ordinal_number == ord::first_sat(view.ordinal_block_number as nat)
                + view.ordinal_offset
        },
    }
}

/// Every step counts one block and keeps the inscription's number; the last
/// one ends in a coinbase that issues the satoshi.
pub proof fn law_step_is_sound(view: TraversalView, block: BlockView)
    ensures
        is_sound_step(view, block.coinbase_value as nat, view.step(block)),
{
    lemma_transactions_keep(
        view.hopped(),
        view.txid,
        block.transactions,
        block.transactions.len(),
    );
}

/// The same of steps through blocks in their stored form.
pub proof fn law_lazy_step_is_sound(view: TraversalView, block: LazyBlock)
    ensures
        is_sound_step(
            view,
            block_format::word_at(block.bytes@, block.coinbase_pos() + 8),
            view.lazy_step(block),
        ),
{
}

proof fn lemma_transactions_keep(
    view: TraversalView,
    txid: Seq<u8>,
    txs: Seq<TransactionView>,
    count: nat,
)
    ensures
        view.through_transactions(txid, txs, count) matches Some(next) ==> {
            &&& next.hops == view.hops
            &&& next.inscription_number == view.inscription_number
        },
    decreases count,
{
    if count > 0 {
        lemma_transactions_keep(view, txid, txs, (count - 1) as nat);
    }
}

/// What a traversal comes to.
pub enum TraceView {
    /// The coinbase that minted the satoshi was found.
    Found(TraversalResult),
    /// A block is not there.
    Missing(u32),
    /// A step cannot be made.
    Stuck,
    /// The rounds did not suffice.
    Unfinished,
}

/// A traversal through stored blocks, in at most so many rounds.
pub open spec fn trace(view: TraversalView, blocks: Map<u32, BlockView>, rounds: nat) -> TraceView
    decreases rounds,
{
    if rounds == 0 {
        TraceView::Unfinished
    } else if !blocks.dom().contains(view.ordinal_block_number) {
        TraceView::Missing(view.ordinal_block_number)
    } else {
        match view.step(blocks[view.ordinal_block_number]) {
            None => TraceView::Stuck,
            Some(StepView::Reached(result)) => TraceView::Found(result),
            Some(StepView::Moved(next)) => trace(next, blocks, (rounds - 1) as nat),
        }
    }
}

/// What a traversal comes to does not depend on how many rounds it may take.
pub proof fn law_trace_settles(
    view: TraversalView,
    blocks: Map<u32, BlockView>,
    rounds: nat,
    more: nat,
)
    requires
        rounds <= more,
        trace(view, blocks, rounds) !is Unfinished,
    ensures
        trace(view, blocks, more) == trace(view, blocks, rounds),
    decreases rounds,
{
    if rounds > 0 && blocks.dom().contains(view.ordinal_block_number) {
        if let Some(StepView::Moved(next)) = view.step(blocks[view.ordinal_block_number]) {
            law_trace_settles(next, blocks, (rounds - 1) as nat, (more - 1) as nat);
        }
    }
}

/// A traversal that finds its satoshi's origin names a satoshi that the coinbase
/// of one of the blocks issues, keeps the inscription's number, and counts the
/// blocks that it went through.
pub proof fn law_trace_ends_in_a_coinbase(
    view: TraversalView,
    blocks: Map<u32, BlockView>,
    rounds: nat,
)
    requires
        trace(view, blocks, rounds) is Found,
    ensures
        ({
            let result = trace(view, blocks, rounds)->Found_0;
            &&& result.inscription_number == view.inscription_number
            &&& view.hops < result.transfers <= view.hops + rounds
            &&& exists|height: u32|
                #![trigger blocks[height]]
                {
                    &&& blocks.dom().contains(height)
                    &&& ord::first_sat(height as nat) <= result.ordinal_number
                    &&& result.ordinal_number < ord::first_sat(height as nat)
                        + blocks[height].coinbase_value
                }
        }),
    decreases rounds,
{
    let height = view.ordinal_block_number;
    law_step_is_sound(view, blocks[height]);
    if let Some(StepView::Moved(next)) = view.step(blocks[height]) {
        law_trace_ends_in_a_coinbase(next, blocks, (rounds - 1) as nat);
    }
}

/// Only a block that is not there is ever said to be missing.
pub proof fn law_missing_block_is_missing(
    view: TraversalView,
    blocks: Map<u32, BlockView>,
    rounds: nat,
)
    requires
        trace(view, blocks, rounds) is Missing,
    ensures
        !blocks.dom().contains(trace(view, blocks, rounds)->Missing_0),
    decreases rounds,
{
    if blocks.dom().contains(view.ordinal_block_number) {
        if let Some(StepView::Moved(next)) = view.step(blocks[view.ordinal_block_number]) {
            law_missing_block_is_missing(next, blocks, (rounds - 1) as nat);
        }
    }
}

/// A satoshi at an offset below its block's subsidy is issued by that block and by no other.
pub proof fn law_origin_of_ordinal_number(height: nat, offset: nat, other: nat)
    requires
        offset < ord::block_subsidy(height),
    ensures
        ord::first_sat(height) + offset < SUPPLY,
        ord::first_sat(other) <= ord::first_sat(height) + offset < ord::first_sat(other + 1)
            <==> other == height,
{
    assert(ord::first_sat(height + 1) == ord::first_sat(height) + ord::block_subsidy(height));
    ord::law_first_sat_within_supply(height + 1);
    if ord::first_sat(other) <= ord::first_sat(height) + offset < ord::first_sat(other + 1) {
        ord::law_one_block_per_sat(ord::first_sat(height) + offset, height, other);
    }
}

/// Whether `lazy` holds the block `block`, whole.
pub open spec fn holds_block(lazy: LazyBlock, block: BlockView) -> bool {
    let pos = lazy.coinbase_pos();
    &&& lazy.tx_len <= MAX_TX_LEN
    &&& pos + 16 <= lazy.bytes@.len()
    &&& lazy.bytes@.subrange(pos, pos + 8) == block.coinbase_txid
    &&& block_format::word_at(lazy.bytes@, pos + 8) == block.coinbase_value
    &&& traversal::lazy_transactions(lazy) == block.transactions
    &&& forall|k: int| 0 <= k < lazy.tx_len ==> #[trigger] lazy.transaction_readable(k)
}

/// A block in its stored form leads a traversal where the block itself leads it,
/// if exactly one transaction of the block has the identifier in question.
pub proof fn law_lazy_step_agrees(
    view: TraversalView,
    lazy: LazyBlock,
    block: BlockView,
    index: int,
)
    requires
        holds_block(lazy, block),
        0 <= index < block.transactions.len(),
        block.transactions[index].txid == view.txid,
        forall|k: int|
            0 <= k < block.transactions.len() && k != index
                ==> #[trigger] block.transactions[k].txid != view.txid,
    ensures
        view.lazy_step(lazy) == view.step(block),
{
    let txs = block.transactions;
    assert forall|k: int| 0 <= k < txs.len() implies #[trigger] lazy.transaction(k) == txs[k] by {
        assert(traversal::lazy_transactions(lazy)[k] == lazy.transaction(k));
    }
    lemma_find(view.txid, lazy, txs, index, 0);
    lemma_only_transaction(view.hopped(), view.txid, txs, index, txs.len());
    if block.coinbase_txid == view.txid {
        law_lazy_step_agrees_in_a_coinbase(view, lazy, block);
    }
}

/// In a coinbase the two agree whatever the transactions.
pub proof fn law_lazy_step_agrees_in_a_coinbase(
    view: TraversalView,
    lazy: LazyBlock,
    block: BlockView,
)
    requires
        holds_block(lazy, block),
        block.coinbase_txid == view.txid,
    ensures
        view.lazy_step(lazy) == view.step(block),
{
    traversal::lemma_fee_payer(
        block.transactions,
        view.ordinal_offset - block.coinbase_value,
        0,
    );
}

proof fn lemma_find(
    txid: Seq<u8>,
    lazy: LazyBlock,
    txs: Seq<TransactionView>,
    index: int,
    from: nat,
)
    requires
        from <= index < txs.len() == lazy.tx_len,
        forall|k: int| 0 <= k < lazy.tx_len ==> #[trigger] lazy.transaction_readable(k),
        forall|k: int| 0 <= k < txs.len() ==> #[trigger] lazy.transaction(k) == txs[k],
        txs[index].txid == txid,
        forall|k: int|
            0 <= k < txs.len() && k != index ==> #[trigger] txs[k].txid != txid,
    ensures
        lazy.find_from(txid, from) == Some(index),
        lazy.search_readable(txid, from),
    decreases index - from,
{
    assert(lazy.transaction_readable(from as int));
    assert(lazy.transaction(from as int) == txs[from as int]);
    if from < index {
        lemma_find(txid, lazy, txs, index, from + 1);
    }
}

proof fn lemma_only_transaction(
    view: TraversalView,
    txid: Seq<u8>,
    txs: Seq<TransactionView>,
    index: int,
    count: nat,
)
    requires
        count <= txs.len(),
        0 <= index < txs.len(),
        txs[index].txid == txid,
        forall|k: int|
            0 <= k < txs.len() && k != index ==> #[trigger] txs[k].txid != txid,
    ensures
        view.through_transactions(txid, txs, count) == if index < count {
            view.through_transaction(txs[index])
        } else {
            Some(view)
        },
    decreases count,
{
    if count > 0 {
        lemma_only_transaction(view, txid, txs, index, (count - 1) as nat);
        if count - 1 != index {
            assert(txs[count - 1].txid != txid);
        }
    }
}

/// A traversal through blocks in their stored form, in at most so many rounds.
pub open spec fn lazy_trace(
    view: TraversalView,
    blocks: Map<u32, LazyBlock>,
    rounds: nat,
) -> TraceView
    decreases rounds,
{
    if rounds == 0 {
        TraceView::Unfinished
    } else if !blocks.dom().contains(view.ordinal_block_number) {
        TraceView::Missing(view.ordinal_block_number)
    } else {
        match view.lazy_step(blocks[view.ordinal_block_number]) {
            None => TraceView::Stuck,
            Some(StepView::Reached(result)) => TraceView::Found(result),
            Some(StepView::Moved(next)) => lazy_trace(next, blocks, (rounds - 1) as nat),
        }
    }
}

/// Whether `txid` is the coinbase of a block, or one of its transactions and no other.
pub open spec fn names_one_transaction(block: BlockView, txid: Seq<u8>) -> bool {
    ||| block.coinbase_txid == txid
    ||| exists|index: int|
        {
            &&& 0 <= index < block.transactions.len()
            &&& (#[trigger] block.transactions[index]).txid == txid
            &&& forall|k: int|
                0 <= k < block.transactions.len() && k != index
                    ==> #[trigger] block.transactions[k].txid != txid
        }
}

/// Whether every transaction that a traversal comes to is in the block where it
/// is looked for, and no other transaction there shares its identifier.
pub open spec fn is_grounded(view: TraversalView, blocks: Map<u32, BlockView>, rounds: nat) -> bool
    decreases rounds,
{
    let block = blocks[view.ordinal_block_number];
    if rounds == 0 || !blocks.dom().contains(view.ordinal_block_number) {
        true
    } else {
        &&& names_one_transaction(block, view.txid)
        &&& view.step(block) matches Some(StepView::Moved(next)) ==> is_grounded(
            next,
            blocks,
            (rounds - 1) as nat,
        )
    }
}

/// A traversal comes to the same through blocks in their stored form as
/// through the blocks themselves.
pub proof fn law_lazy_trace_agrees(
    view: TraversalView,
    blocks: Map<u32, BlockView>,
    lazy_blocks: Map<u32, LazyBlock>,
    rounds: nat,
)
    requires
        forall|height: u32|
            #![trigger blocks.dom().contains(height)]
            #![trigger lazy_blocks.dom().contains(height)]
            blocks.dom().contains(height) <==> lazy_blocks.dom().contains(height),
        forall|height: u32| #[trigger]
            blocks.dom().contains(height) ==> holds_block(lazy_blocks[height], blocks[height]),
        is_grounded(view, blocks, rounds),
    ensures
        lazy_trace(view, lazy_blocks, rounds) == trace(view, blocks, rounds),
    decreases rounds,
{
    let height = view.ordinal_block_number;
    if rounds > 0 && blocks.dom().contains(height) {
        let block = blocks[height];
        if block.coinbase_txid == view.txid {
            law_lazy_step_agrees_in_a_coinbase(view, lazy_blocks[height], block);
        } else {
            let index = choose|index: int|
                {
                    &&& 0 <= index < block.transactions.len()
                    &&& (#[trigger] block.transactions[index]).txid == view.txid
                    &&& forall|k: int|
                        0 <= k < block.transactions.len() && k != index
                            ==> #[trigger] block.transactions[k].txid != view.txid
                };
            law_lazy_step_agrees(view, lazy_blocks[height], block, index);
        }
        if let Some(StepView::Moved(next)) = view.step(block) {
            law_lazy_trace_agrees(next, blocks, lazy_blocks, (rounds - 1) as nat);
        }
    }
}

/// One step from an output of a transaction that a block holds once leads to
/// the output that one of its inputs spends: the one that as many satoshis of
/// the inputs come before as of the outputs.
pub proof fn law_step_leads_to_the_input(
    traversal: &SatoshiPointTraversal,
    block: &CompactedBlock,
    r: Option<TraversalProgress>,
    i: int,
)
    requires
        call_ensures(SatoshiPointTraversal::step, (traversal, block), r),
        r is Some,
        block.0.0.0@ != traversal.txid@,
        0 <= i < block.0.1@.len(),
        block.0.1@[i].0@ == traversal.txid@,
        forall|k: int|
            0 <= k < block.0.1@.len() && k != i ==> (#[trigger] block.0.1@[k]).0@
                != traversal.txid@,
        traversal.vout <= block.0.1@[i].2@.len(),
        traversal::sum_first(block.0.1@[i].2@, traversal.vout as nat) + traversal.ordinal_offset
            < traversal::sum_first(
            Seq::new(block.0.1@[i].1@.len(), |j: int| block.0.1@[i].1@[j].3),
            block.0.1@[i].1@.len(),
        ),
    ensures
        ({
            let inputs = block.0.1@[i].1@;
            let values = Seq::new(inputs.len(), |j: int| inputs[j].3);
            &&& r->0 matches TraversalProgress::Moved(next)
            &&& next.hops == traversal.hops + 1
            &&& next.inscription_number == traversal.inscription_number
            &&& exists|index: nat|
                {
                    let before = #[trigger] traversal::sum_first(values, index);
                    &&& index < inputs.len()
                    &&& traversal::sum_first(block.0.1@[i].2@, traversal.vout as nat)
                        + traversal.ordinal_offset == before + next.ordinal_offset
                    &&& next.ordinal_offset < inputs[index as int].3
                    &&& next.txid@ == inputs[index as int].0@
                    &&& next.ordinal_block_number == inputs[index as int].1
                    &&& next.vout == inputs[index as int].2
                }
        }),
{
    let view = traversal@;
    let txs = block@.transactions;
    let tx = txs[i];
    let inputs = block.0.1@[i].1@;
    let values = Seq::new(inputs.len(), |j: int| inputs[j].3);
    assert(traversal::input_values(tx.inputs) =~= values);
    assert(tx.outputs == block.0.1@[i].2@);
    assert forall|k: int| 0 <= k < txs.len() && k != i implies #[trigger] txs[k].txid
        != view.txid by {
        assert(block.0.1@[k].0@ != traversal.txid@);
    }
    lemma_only_transaction(view.hopped(), view.txid, txs, i, txs.len());
    law_progress(r, view.step(block@));
    law_satoshi_comes_from_its_input(view.hopped(), tx, view.vout);
    let next = view.hopped().through_transaction(tx)->0;
    let index = choose|index: nat|
        {
            let input = tx.inputs[index as int];
            let before = #[trigger] traversal::sum_first(
                traversal::input_values(tx.inputs),
                index,
            );
            &&& index < tx.inputs.len()
            &&& traversal::sum_first(tx.outputs, view.vout) + view.ordinal_offset == before
                + next.ordinal_offset
            &&& next.ordinal_offset < input.value
            &&& next.txid == input.txin
            &&& next.ordinal_block_number == input.block_height
            &&& next.vout == input.vout
            &&& next.hops == view.hopped().hops
            &&& next.inscription_number == view.inscription_number
        };
    assert(tx.inputs[index as int] == block::input_view(inputs[index as int]));
    assert(traversal::sum_first(values, index) + next.ordinal_offset == traversal::sum_first(
        tx.outputs,
        view.vout,
    ) + view.ordinal_offset);
}

/// A traversal ends in the coinbase of its block, with the satoshi so far
/// beyond the first one of the block, and has then gone through one block more.
pub proof fn law_step_ends_in_the_coinbase(
    traversal: &SatoshiPointTraversal,
    block: &CompactedBlock,
    r: Option<TraversalProgress>,
)
    requires
        call_ensures(SatoshiPointTraversal::step, (traversal, block), r),
        block.0.0.0@ == traversal.txid@,
        traversal.ordinal_offset < block.0.0.1,
        traversal.hops < u32::MAX,
    ensures
        match r {
            Some(TraversalProgress::Reached(result)) => {
                &&& result.ordinal_number == ord::first_sat(traversal.ordinal_block_number as nat)
                    + traversal.ordinal_offset
                &&& result.inscription_number == traversal.inscription_number
                &&& result.transfers == traversal.hops + 1
            },
            Some(TraversalProgress::Moved(_)) => false,
            None => ord::first_sat(traversal.ordinal_block_number as nat)
                + traversal.ordinal_offset > u64::MAX,
        },
{
    law_progress(r, traversal@.step(block@));
    law_coinbase_ends_a_traversal(traversal@, block@);
}

/// The height and the offset that a traced satoshi has in its coinbase belong
/// together: the satoshi comes so many after the first one of that block, and
/// before the first one of the next.
pub proof fn law_coinbase_height_and_offset(result: &TraversalResult, height: u64, offset: u64)
    requires
        call_ensures(TraversalResult::get_ordinal_coinbase_height, (result,), height),
        call_ensures(TraversalResult::get_ordinal_coinbase_offset, (result,), offset),
    ensures
        ord::first_sat(height as nat) + offset == result.ordinal_number,
        offset < ord::block_subsidy(height as nat),
{
    let number = result.ordinal_number;
    let other = choose|other: nat|
        {
            &&& #[trigger] ord::first_sat(other) + offset == number
            &&& offset < ord::block_subsidy(other)
        };
    assert(ord::first_sat(other + 1) == ord::first_sat(other) + ord::block_subsidy(other));
    ord::law_one_block_per_sat(number as nat, height as nat, other);
}

} // verus!
