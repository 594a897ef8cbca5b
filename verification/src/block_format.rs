//! The byte format in which compacted blocks are stored.
use crate::block::{
    BlockView, CompactedBlock, CompactedInput, CompactedTransaction, InputView, TransactionView,
};
use crate::{block, wire};
use vstd::prelude::*;

verus! {

pub open spec fn input_bytes(input: InputView) -> Seq<u8> {
    input.txin + wire::be_bytes(input.block_height as nat, 4) + wire::be_bytes(
        input.vout as nat,
        2,
    ) + wire::be_bytes(input.value as nat, 8)
}

pub open spec fn inputs_bytes(inputs: Seq<InputView>) -> Seq<u8>
    decreases inputs.len(),
{
    if inputs.len() == 0 {
        Seq::empty()
    } else {
        inputs_bytes(inputs.drop_last()) + input_bytes(inputs.last())
    }
}

pub open spec fn outputs_bytes(outputs: Seq<u64>) -> Seq<u8>
    decreases outputs.len(),
{
    if outputs.len() == 0 {
        Seq::empty()
    } else {
        outputs_bytes(outputs.drop_last()) + wire::be_bytes(outputs.last() as nat, 8)
    }
}

pub open spec fn transaction_bytes(tx: TransactionView) -> Seq<u8> {
    tx.txid + wire::be_bytes(tx.inputs.len(), 8) + inputs_bytes(tx.inputs) + wire::be_bytes(
        tx.outputs.len(),
        8,
    ) + outputs_bytes(tx.outputs)
}

pub open spec fn transactions_bytes(txs: Seq<TransactionView>) -> Seq<u8>
    decreases txs.len(),
{
    if txs.len() == 0 {
        Seq::empty()
    } else {
        transactions_bytes(txs.drop_last()) + transaction_bytes(txs.last())
    }
}

/// The stored form of a block: identifiers and big-endian numbers one after
/// the other, each list behind its length.
pub open spec fn block_bytes(block: BlockView) -> Seq<u8> {
    block.coinbase_txid + wire::be_bytes(block.coinbase_value as nat, 8) + wire::be_bytes(
        block.transactions.len(),
        8,
    ) + transactions_bytes(block.transactions)
}

/// Why stored bytes are not a block.
#[derive(Clone, Copy, Debug, PartialEq, Eq, Structural)]
pub enum BlockParseError {
    /// The bytes end inside an identifier, a value or an input.
    UnexpectedEof,
    /// The bytes end where a list's length is due.
    CorruptedLength,
}

/// The outcome of reading a value: the value and the position behind it, or a failure.
pub enum Parsed<T> {
    Value(T, int),
    Failure(BlockParseError),
}

pub open spec fn word_at(bytes: Seq<u8>, pos: int) -> nat {
    wire::be_value(bytes.subrange(pos, pos + 8))
}

pub open spec fn input_at(bytes: Seq<u8>, pos: int) -> InputView {
    InputView {
        txin: bytes.subrange(pos, pos + 8),
        block_height: wire::be_value(bytes.subrange(pos + 8, pos + 12)) as u32,
        vout: wire::be_value(bytes.subrange(pos + 12, pos + 14)) as u16,
        value: word_at(bytes, pos + 14) as u64,
    }
}

pub open spec fn inputs_at(bytes: Seq<u8>, pos: int, count: nat) -> Seq<InputView> {
    Seq::new(count, |k: int| input_at(bytes, pos + 22 * k))
}

pub open spec fn outputs_at(bytes: Seq<u8>, pos: int, count: nat) -> Seq<u64> {
    Seq::new(count, |k: int| word_at(bytes, pos + 8 * k) as u64)
}

/// What a reader finds that expects a transaction at `pos`.
pub open spec fn parse_transaction(bytes: Seq<u8>, pos: int) -> Parsed<TransactionView> {
    let inputs_pos = pos + 16;
    let inputs_len = word_at(bytes, pos + 8);
    let outputs_len_pos = inputs_pos + 22 * inputs_len;
    let outputs_len = word_at(bytes, outputs_len_pos);
    let outputs_pos = outputs_len_pos + 8;
    let end = outputs_pos + 8 * outputs_len;
    if pos + 8 > bytes.len() {
        Parsed::Failure(BlockParseError::UnexpectedEof)
    } else if inputs_pos > bytes.len() {
        Parsed::Failure(BlockParseError::CorruptedLength)
    } else if outputs_len_pos > bytes.len() {
        Parsed::Failure(BlockParseError::UnexpectedEof)
    } else if outputs_pos > bytes.len() {
        Parsed::Failure(BlockParseError::CorruptedLength)
    } else if end > bytes.len() {
        Parsed::Failure(BlockParseError::UnexpectedEof)
    } else {
        Parsed::Value(
            TransactionView {
                txid: bytes.subrange(pos, pos + 8),
                inputs: inputs_at(bytes, inputs_pos, inputs_len),
                outputs: outputs_at(bytes, outputs_pos, outputs_len),
            },
            end,
        )
    }
}

/// What a reader finds that expects `count` transactions at `pos`.
pub open spec fn parse_transactions(bytes: Seq<u8>, pos: int, count: nat) -> Parsed<
    Seq<TransactionView>,
>
    decreases count,
{
    if count == 0 {
        Parsed::Value(Seq::empty(), pos)
    } else {
        match parse_transactions(bytes, pos, (count - 1) as nat) {
            Parsed::Failure(e) => Parsed::Failure(e),
            Parsed::Value(txs, next) => match parse_transaction(bytes, next) {
                Parsed::Failure(e) => Parsed::Failure(e),
                Parsed::Value(tx, end) => Parsed::Value(txs.push(tx), end),
            },
        }
    }
}

/// What a reader finds that expects a block. Bytes behind the block are ignored.
pub open spec fn parse_block(bytes: Seq<u8>) -> Parsed<BlockView> {
    if bytes.len() < 16 {
        Parsed::Failure(BlockParseError::UnexpectedEof)
    } else if bytes.len() < 24 {
        Parsed::Failure(BlockParseError::CorruptedLength)
    } else {
        match parse_transactions(bytes, 24, word_at(bytes, 16)) {
            Parsed::Failure(e) => Parsed::Failure(e),
            Parsed::Value(transactions, end) => Parsed::Value(
                BlockView {
                    coinbase_txid: bytes.subrange(0, 8),
                    coinbase_value: word_at(bytes, 8) as u64,
                    transactions,
                },
                end,
            ),
        }
    }
}

pub(crate) fn push_inputs(fd: &mut Vec<u8>, inputs: &Vec<CompactedInput>)
    ensures
        final(fd)@ == old(fd)@ + inputs_bytes(block::inputs_view(inputs@)),
{
    let ghost view = block::inputs_view(inputs@);
    let mut i: usize = 0;
    assert(fd@ =~= old(fd)@ + inputs_bytes(view.take(0)));
    while i < inputs.len()
        invariant
            i <= inputs@.len(),
            view == block::inputs_view(inputs@),
            fd@ == old(fd)@ + inputs_bytes(view.take(i as int)),
        decreases inputs@.len() - i,
    {
        let input = &inputs[i];
        wire::push_all(fd, input.0.as_slice());
        wire::push_be(fd, input.1 as u64, 4);
        wire::push_be(fd, input.2 as u64, 2);
        wire::push_be(fd, input.3, 8);
        i = i + 1;
        proof {
            let front = view.take(i as int);
            assert(front.drop_last() =~= view.take(i - 1));
            assert(front.last() == block::input_view(inputs@[i - 1]));
            assert(fd@ =~= old(fd)@ + inputs_bytes(front));
        }
    }
    assert(view.take(i as int) =~= view);
}

pub(crate) fn push_outputs(fd: &mut Vec<u8>, outputs: &Vec<u64>)
    ensures
        final(fd)@ == old(fd)@ + outputs_bytes(outputs@),
{
    let mut i: usize = 0;
    assert(fd@ =~= old(fd)@ + outputs_bytes(outputs@.take(0)));
    while i < outputs.len()
        invariant
            i <= outputs@.len(),
            fd@ == old(fd)@ + outputs_bytes(outputs@.take(i as int)),
        decreases outputs@.len() - i,
    {
        wire::push_be(fd, outputs[i], 8);
        i = i + 1;
        proof {
            let front = outputs@.take(i as int);
            assert(front.drop_last() =~= outputs@.take(i - 1));
            assert(fd@ =~= old(fd)@ + outputs_bytes(front));
        }
    }
    assert(outputs@.take(i as int) =~= outputs@);
}

fn push_transaction(fd: &mut Vec<u8>, tx: &CompactedTransaction)
    ensures
        final(fd)@ == old(fd)@ + transaction_bytes(block::transaction_view(*tx)),
{
    wire::push_all(fd, tx.0.as_slice());
    wire::push_be(fd, tx.1.len() as u64, 8);
    push_inputs(fd, &tx.1);
    wire::push_be(fd, tx.2.len() as u64, 8);
    push_outputs(fd, &tx.2);
    assert(fd@ =~= old(fd)@ + transaction_bytes(block::transaction_view(*tx)));
}

/// Reads `count` inputs at `pos`, if the bytes hold that many.
fn read_inputs(bytes: &[u8], pos: usize, count: u64) -> (r: Option<(Vec<CompactedInput>, usize)>)
    requires
        pos <= bytes@.len(),
    ensures
        match r {
            Some((inputs, next)) => {
                &&& next == pos + 22 * count <= bytes@.len()
                &&& block::inputs_view(inputs@) == inputs_at(bytes@, pos as int, count as nat)
            },
            None => pos + 22 * count > bytes@.len(),
        },
{
    let mut inputs: Vec<CompactedInput> = Vec::new();
    let mut at: usize = pos;
    let mut i: u64 = 0;
    assert(block::inputs_view(inputs@) =~= inputs_at(bytes@, pos as int, 0));
    while i < count
        invariant
            i <= count,
            at == pos + 22 * i <= bytes.len(),
            block::inputs_view(inputs@) == inputs_at(bytes@, pos as int, i as nat),
        decreases count - i,
    {
        if bytes.len() - at < 22 {
            return None;
        }
        let ghost before = inputs@;
        let txin: [u8; 8] = wire::eight_bytes_at(bytes, at);
        let block_height: u64 = wire::be_at(bytes, at + 8, 4);
        let vout: u64 = wire::be_at(bytes, at + 12, 2);
        let value: u64 = wire::be_at(bytes, at + 14, 8);
        proof {
            wire::lemma_be_limits();
        }
        inputs.push((txin, block_height as u32, vout as u16, value));
        proof {
            let now = block::inputs_view(inputs@);
            assert(now =~= block::inputs_view(before).push(block::input_view(inputs@.last())));
            assert(block::input_view(inputs@.last()) =~= input_at(bytes@, at as int));
            assert(now =~= inputs_at(bytes@, pos as int, i as nat + 1));
        }
        at = at + 22;
        i = i + 1;
    }
    Some((inputs, at))
}

/// Reads `count` output values at `pos`, if the bytes hold that many.
fn read_outputs(bytes: &[u8], pos: usize, count: u64) -> (r: Option<(Vec<u64>, usize)>)
    requires
        pos <= bytes@.len(),
    ensures
        match r {
            Some((outputs, next)) => {
                &&& next == pos + 8 * count <= bytes@.len()
                &&& outputs@ == outputs_at(bytes@, pos as int, count as nat)
            },
            None => pos + 8 * count > bytes@.len(),
        },
{
    let mut outputs: Vec<u64> = Vec::new();
    let mut at: usize = pos;
    let mut i: u64 = 0;
    assert(outputs@ =~= outputs_at(bytes@, pos as int, 0));
    while i < count
        invariant
            i <= count,
            at == pos + 8 * i <= bytes.len(),
            outputs@ == outputs_at(bytes@, pos as int, i as nat),
        decreases count - i,
    {
        if bytes.len() - at < 8 {
            return None;
        }
        let value: u64 = wire::be_at(bytes, at, 8);
        outputs.push(value);
        assert(outputs@ =~= outputs_at(bytes@, pos as int, i as nat + 1));
        at = at + 8;
        i = i + 1;
    }
    Some((outputs, at))
}

fn read_transaction(bytes: &[u8], pos: usize) -> (r: Result<
    (CompactedTransaction, usize),
    BlockParseError,
>)
    requires
        pos <= bytes@.len(),
    ensures
        match r {
            Ok((tx, next)) => parse_transaction(bytes@, pos as int) == Parsed::Value(
                block::transaction_view(tx),
                next as int,
            ),
            Err(e) => parse_transaction(bytes@, pos as int) == Parsed::<TransactionView>::Failure(
                e,
            ),
        },
        r matches Ok((_, next)) ==> next <= bytes@.len(),
{
    let len = bytes.len();
    if len - pos < 8 {
        return Err(BlockParseError::UnexpectedEof);
    }
    let txid: [u8; 8] = wire::eight_bytes_at(bytes, pos);
    if len - pos < 16 {
        return Err(BlockParseError::CorruptedLength);
    }
    let inputs_len: u64 = wire::be_at(bytes, pos + 8, 8);
    let (inputs, outputs_len_pos) = match read_inputs(bytes, pos + 16, inputs_len) {
        Some(read) => read,
        None => {
            return Err(BlockParseError::UnexpectedEof);
        },
    };
    if len - outputs_len_pos < 8 {
        return Err(BlockParseError::CorruptedLength);
    }
    let outputs_len: u64 = wire::be_at(bytes, outputs_len_pos, 8);
    match read_outputs(bytes, outputs_len_pos + 8, outputs_len) {
        Some((outputs, end)) => Ok(((txid, inputs, outputs), end)),
        None => Err(BlockParseError::UnexpectedEof),
    }
}

proof fn lemma_parse_transactions_failure(bytes: Seq<u8>, pos: int, few: nat, many: nat)
    requires
        few <= many,
        parse_transactions(bytes, pos, few) is Failure,
    ensures
        parse_transactions(bytes, pos, many) == parse_transactions(bytes, pos, few),
    decreases many,
{
    if few < many {
        lemma_parse_transactions_failure(bytes, pos, few, (many - 1) as nat);
    }
}

impl CompactedBlock {
    /// The block that holds nothing.
    pub fn empty() -> (block: CompactedBlock)
        ensures
            block@ == block::empty_block(),
    {
        let block = CompactedBlock((([0, 0, 0, 0, 0, 0, 0, 0], 0), Vec::new()));
        assert(block@.coinbase_txid =~= seq![0u8, 0, 0, 0, 0, 0, 0, 0]);
        assert(block@.transactions =~= Seq::empty());
        block
    }

    /// Appends the stored form of the block to `fd`.
    pub fn serialize(&self, fd: &mut Vec<u8>)
        ensures
            final(fd)@ == old(fd)@ + block_bytes(self@),
    {
        wire::push_all(fd, self.0.0.0.as_slice());
        wire::push_be(fd, self.0.0.1, 8);
        wire::push_be(fd, self.0.1.len() as u64, 8);
        let ghost header = fd@;
        let ghost view = self@.transactions;
        let mut i: usize = 0;
        assert(fd@ =~= header + transactions_bytes(view.take(0)));
        while i < self.0.1.len()
            invariant
                i <= self.0.1@.len(),
                view == block::transactions_view(self.0.1@),
                fd@ == header + transactions_bytes(view.take(i as int)),
            decreases self.0.1@.len() - i,
        {
            push_transaction(fd, &self.0.1[i]);
            i = i + 1;
            proof {
                let front = view.take(i as int);
                assert(front.drop_last() =~= view.take(i - 1));
                assert(front.last() == block::transaction_view(self.0.1@[i - 1]));
                assert(fd@ =~= header + transactions_bytes(front));
            }
        }
        assert(view.take(i as int) =~= view);
        assert(fd@ =~= old(fd)@ + block_bytes(self@));
    }

    /// Reads the block whose stored form stands at the front of `bytes`.
    pub fn try_deserialize(bytes: &[u8]) -> (r: Result<CompactedBlock, BlockParseError>)
        ensures
            match r {
                Ok(block) => parse_block(bytes@) matches Parsed::Value(read, _) && read == block@,
                Err(e) => parse_block(bytes@) == Parsed::<BlockView>::Failure(e),
            },
    {
        if bytes.len() < 16 {
            return Err(BlockParseError::UnexpectedEof);
        }
        if bytes.len() < 24 {
            return Err(BlockParseError::CorruptedLength);
        }
        let coinbase_txid: [u8; 8] = wire::eight_bytes_at(bytes, 0);
        let coinbase_value: u64 = wire::be_at(bytes, 8, 8);
        let tx_len: u64 = wire::be_at(bytes, 16, 8);
        let mut txs: Vec<CompactedTransaction> = Vec::new();
        let mut pos: usize = 24;
        let mut i: u64 = 0;
        assert(block::transactions_view(txs@) =~= Seq::empty());
        while i < tx_len
            invariant
                i <= tx_len,
                pos <= bytes@.len(),
                bytes@.len() >= 24,
                tx_len == word_at(bytes@, 16),
                parse_transactions(bytes@, 24, i as nat) == Parsed::Value(
                    block::transactions_view(txs@),
                    pos as int,
                ),
            decreases tx_len - i,
        {
            match read_transaction(bytes, pos) {
                Ok((tx, next)) => {
                    let ghost before = txs@;
                    txs.push(tx);
                    assert(block::transactions_view(txs@) =~= block::transactions_view(before).push(
                        block::transaction_view(tx),
                    ));
                    pos = next;
                },
                Err(e) => {
                    proof {
                        lemma_parse_transactions_failure(
                            bytes@,
                            24,
                            i as nat + 1,
                            tx_len as nat,
                        );
                    }
                    return Err(e);
                },
            }
            i = i + 1;
        }
        Ok(CompactedBlock(((coinbase_txid, coinbase_value), txs)))
    }

    /// Reads the block whose stored form stands at the front of `bytes`, which
    /// hold every list length that the reading comes to.
    pub fn deserialize(bytes: &[u8]) -> (r: Result<CompactedBlock, BlockParseError>)
        requires
            parse_block(bytes@) != Parsed::<BlockView>::Failure(BlockParseError::CorruptedLength),
        ensures
            match r {
                Ok(block) => parse_block(bytes@) matches Parsed::Value(read, _) && read == block@,
                Err(e) => e is UnexpectedEof && parse_block(bytes@) is Failure,
            },
    {
        Self::try_deserialize(bytes)
    }
}

/// Whether `part` stands in `bytes` at `pos`.
pub open spec fn holds_at(bytes: Seq<u8>, pos: int, part: Seq<u8>) -> bool {
    &&& 0 <= pos
    &&& pos + part.len() <= bytes.len()
    &&& bytes.subrange(pos, pos + part.len()) == part
}

pub proof fn lemma_holds_concat(bytes: Seq<u8>, pos: int, a: Seq<u8>, b: Seq<u8>)
    ensures
        holds_at(bytes, pos, a + b) <==> holds_at(bytes, pos, a) && holds_at(
            bytes,
            pos + a.len(),
            b,
        ),
{
    let ab = a + b;
    if holds_at(bytes, pos, ab) {
        let whole = bytes.subrange(pos, pos + ab.len());
        assert(a =~= ab.take(a.len() as int));
        assert(b =~= ab.skip(a.len() as int));
        assert(bytes.subrange(pos, pos + a.len()) =~= whole.take(a.len() as int));
        assert(bytes.subrange(pos + a.len(), pos + a.len() + b.len()) =~= whole.skip(
            a.len() as int,
        ));
    }
    if holds_at(bytes, pos, a) && holds_at(bytes, pos + a.len(), b) {
        assert(bytes.subrange(pos, pos + ab.len()) =~= bytes.subrange(pos, pos + a.len())
            + bytes.subrange(pos + a.len(), pos + a.len() + b.len()));
    }
}

/// A number stands at `pos` just when reading there gives it.
pub proof fn lemma_holds_number(bytes: Seq<u8>, pos: int, n: nat, width: nat)
    requires
        n < wire::be_limit(width),
        0 <= pos,
        pos + width <= bytes.len(),
    ensures
        wire::be_bytes(n, width).len() == width,
        holds_at(bytes, pos, wire::be_bytes(n, width)) <==> wire::be_value(
            bytes.subrange(pos, pos + width),
        ) == n,
{
    wire::lemma_be_bytes_len(n, width);
    wire::law_be_read_of_write(n, width);
    wire::law_be_write_of_read(bytes.subrange(pos, pos + width));
}

pub proof fn lemma_holds_input(bytes: Seq<u8>, pos: int, input: InputView)
    requires
        input.wf(),
    ensures
        input_bytes(input).len() == 22,
        holds_at(bytes, pos, input_bytes(input)) <==> 0 <= pos && pos + 22 <= bytes.len()
            && input_at(bytes, pos) == input,
{
    let height = wire::be_bytes(input.block_height as nat, 4);
    let vout = wire::be_bytes(input.vout as nat, 2);
    let value = wire::be_bytes(input.value as nat, 8);
    wire::lemma_be_limits();
    wire::lemma_be_bytes_len(input.block_height as nat, 4);
    wire::lemma_be_bytes_len(input.vout as nat, 2);
    wire::lemma_be_bytes_len(input.value as nat, 8);
    lemma_holds_concat(bytes, pos, input.txin + height + vout, value);
    lemma_holds_concat(bytes, pos, input.txin + height, vout);
    lemma_holds_concat(bytes, pos, input.txin, height);
    if 0 <= pos && pos + 22 <= bytes.len() {
        lemma_holds_number(bytes, pos + 8, input.block_height as nat, 4);
        lemma_holds_number(bytes, pos + 12, input.vout as nat, 2);
        lemma_holds_number(bytes, pos + 14, input.value as nat, 8);
        wire::lemma_be_value_bound(bytes.subrange(pos + 8, pos + 12));
        wire::lemma_be_value_bound(bytes.subrange(pos + 12, pos + 14));
        wire::lemma_be_value_bound(bytes.subrange(pos + 14, pos + 22));
        if input_at(bytes, pos) == input {
            assert(bytes.subrange(pos, pos + 8) == input.txin);
        }
        if holds_at(bytes, pos, input_bytes(input)) {
            assert(input_at(bytes, pos) =~= input);
        }
    }
}

pub proof fn lemma_holds_inputs(bytes: Seq<u8>, pos: int, inputs: Seq<InputView>)
    requires
        forall|k: int| 0 <= k < inputs.len() ==> (#[trigger] inputs[k]).wf(),
        0 <= pos <= bytes.len(),
    ensures
        inputs_bytes(inputs).len() == 22 * inputs.len(),
        holds_at(bytes, pos, inputs_bytes(inputs)) <==> pos + 22 * inputs.len() <= bytes.len()
            && inputs_at(bytes, pos, inputs.len()) == inputs,
    decreases inputs.len(),
{
    if inputs.len() == 0 {
        assert(inputs_at(bytes, pos, 0) =~= inputs);
        assert(bytes.subrange(pos, pos) =~= inputs_bytes(inputs));
    } else {
        let front = inputs.drop_last();
        let n = front.len();
        assert forall|k: int| 0 <= k < front.len() implies (#[trigger] front[k]).wf() by {
            assert(front[k] == inputs[k]);
        }
        lemma_holds_inputs(bytes, pos, front);
        lemma_holds_concat(bytes, pos, inputs_bytes(front), input_bytes(inputs.last()));
        assert(inputs.last() == inputs[n as int]);
        lemma_holds_input(bytes, pos + 22 * n, inputs.last());
        let read = inputs_at(bytes, pos, inputs.len());
        if read == inputs {
            assert(inputs_at(bytes, pos, n) =~= read.drop_last());
            assert(read[n as int] == inputs.last());
        }
        if inputs_at(bytes, pos, n) == front && input_at(bytes, pos + 22 * n) == inputs.last() {
            assert forall|k: int| 0 <= k < inputs.len() implies read[k] == inputs[k] by {
                if k < n {
                    assert(inputs_at(bytes, pos, n)[k] == front[k]);
                }
            }
            assert(read =~= inputs);
        }
    }
}

pub proof fn lemma_holds_outputs(bytes: Seq<u8>, pos: int, outputs: Seq<u64>)
    requires
        0 <= pos <= bytes.len(),
    ensures
        outputs_bytes(outputs).len() == 8 * outputs.len(),
        holds_at(bytes, pos, outputs_bytes(outputs)) <==> pos + 8 * outputs.len() <= bytes.len()
            && outputs_at(bytes, pos, outputs.len()) == outputs,
    decreases outputs.len(),
{
    if outputs.len() == 0 {
        assert(outputs_at(bytes, pos, 0) =~= outputs);
        assert(bytes.subrange(pos, pos) =~= outputs_bytes(outputs));
    } else {
        let front = outputs.drop_last();
        let n = front.len();
        wire::lemma_be_limits();
        wire::lemma_be_bytes_len(outputs.last() as nat, 8);
        lemma_holds_outputs(bytes, pos, front);
        lemma_holds_concat(
            bytes,
            pos,
            outputs_bytes(front),
            wire::be_bytes(outputs.last() as nat, 8),
        );
        let read = outputs_at(bytes, pos, outputs.len());
        if pos + 8 * outputs.len() <= bytes.len() {
            lemma_holds_number(bytes, pos + 8 * n, outputs.last() as nat, 8);
            wire::lemma_be_value_bound(bytes.subrange(pos + 8 * n, pos + 8 * n + 8));
            if read == outputs {
                assert(outputs_at(bytes, pos, n) =~= read.drop_last());
                assert(read[n as int] == outputs.last());
            }
            if outputs_at(bytes, pos, n) == front && word_at(bytes, pos + 8 * n)
                == outputs.last() {
                assert forall|k: int| 0 <= k < outputs.len() implies read[k] == outputs[k] by {
                    if k < n {
                        assert(outputs_at(bytes, pos, n)[k] == front[k]);
                    }
                }
                assert(read =~= outputs);
            }
        }
    }
}


pub proof fn lemma_outputs_len(outputs: Seq<u64>)
    ensures
        outputs_bytes(outputs).len() == 8 * outputs.len(),
    decreases outputs.len(),
{
    if outputs.len() > 0 {
        lemma_outputs_len(outputs.drop_last());
        wire::lemma_be_bytes_len(outputs.last() as nat, 8);
    }
}

pub proof fn lemma_holds_transaction(bytes: Seq<u8>, pos: int, tx: TransactionView)
    requires
        tx.wf(),
        0 <= pos <= bytes.len(),
    ensures
        holds_at(bytes, pos, transaction_bytes(tx)) <==> parse_transaction(bytes, pos)
            == Parsed::Value(tx, pos + transaction_bytes(tx).len()),
        transaction_bytes(tx).len() == 24 + 22 * tx.inputs.len() + 8 * tx.outputs.len(),
{
    let n = tx.inputs.len();
    let m = tx.outputs.len();
    let inputs_len = wire::be_bytes(n, 8);
    let inputs = inputs_bytes(tx.inputs);
    let outputs_len = wire::be_bytes(m, 8);
    let outputs = outputs_bytes(tx.outputs);
    wire::lemma_be_limits();
    wire::lemma_be_bytes_len(n, 8);
    wire::lemma_be_bytes_len(m, 8);
    lemma_holds_concat(bytes, pos, tx.txid + inputs_len + inputs + outputs_len, outputs);
    lemma_holds_concat(bytes, pos, tx.txid + inputs_len + inputs, outputs_len);
    lemma_holds_concat(bytes, pos, tx.txid + inputs_len, inputs);
    lemma_holds_concat(bytes, pos, tx.txid, inputs_len);
    lemma_holds_inputs(bytes, pos, tx.inputs);
    lemma_holds_outputs(bytes, pos, tx.outputs);
    let parsed = parse_transaction(bytes, pos);
    let end = pos + transaction_bytes(tx).len();
    if pos + 16 <= bytes.len() {
        lemma_holds_number(bytes, pos + 8, n, 8);
        lemma_holds_inputs(bytes, pos + 16, tx.inputs);
        let next = pos + 16 + 22 * n;
        if next + 8 <= bytes.len() {
            lemma_holds_number(bytes, next, m, 8);
            lemma_holds_outputs(bytes, next + 8, tx.outputs);
        }
        if parsed == Parsed::Value(tx, end) {
            let read_len = word_at(bytes, pos + 8);
            assert(inputs_at(bytes, pos + 16, read_len).len() == read_len);
            assert(read_len == n);
            let read_out = word_at(bytes, next);
            assert(outputs_at(bytes, next + 8, read_out).len() == read_out);
            assert(read_out == m);
        }
    }
}

pub proof fn lemma_parsed_transaction(bytes: Seq<u8>, pos: int)
    requires
        0 <= pos,
    ensures
        parse_transaction(bytes, pos) matches Parsed::Value(tx, end) ==> tx.wf() && pos < end
            <= bytes.len(),
{
    wire::lemma_be_limits();
    if let Parsed::Value(tx, end) = parse_transaction(bytes, pos) {
        let n = word_at(bytes, pos + 8);
        wire::lemma_be_value_bound(bytes.subrange(pos + 8, pos + 16));
        let next = pos + 16 + 22 * n;
        wire::lemma_be_value_bound(bytes.subrange(next, next + 8));
        assert forall|k: int| 0 <= k < tx.inputs.len() implies (#[trigger] tx.inputs[k]).wf() by {
            assert(tx.inputs[k] == input_at(bytes, pos + 16 + 22 * k));
        }
    }
}

/// Reading transactions finds just those whose stored forms stand there.
pub proof fn lemma_parse_transactions(
    bytes: Seq<u8>,
    pos: int,
    count: nat,
    txs: Seq<TransactionView>,
    end: int,
)
    requires
        0 <= pos <= bytes.len(),
    ensures
        parse_transactions(bytes, pos, count) == Parsed::Value(txs, end) <==> {
            &&& txs.len() == count
            &&& forall|k: int| 0 <= k < txs.len() ==> (#[trigger] txs[k]).wf()
            &&& holds_at(bytes, pos, transactions_bytes(txs))
            &&& end == pos + transactions_bytes(txs).len()
        },
    decreases count,
{
    if count == 0 {
        assert(txs.len() == 0 ==> txs =~= Seq::empty());
        assert(bytes.subrange(pos, pos) =~= Seq::empty());
    } else {
        let n = (count - 1) as nat;
        if let Parsed::Value(front, next) = parse_transactions(bytes, pos, n) {
            lemma_parse_transactions(bytes, pos, n, front, next);
            if let Parsed::Value(tx, e) = parse_transaction(bytes, next) {
                lemma_parsed_transaction(bytes, next);
                lemma_holds_transaction(bytes, next, tx);
                let all = front.push(tx);
                assert(all.drop_last() =~= front);
                assert(all.last() == tx);
                lemma_holds_concat(bytes, pos, transactions_bytes(front), transaction_bytes(tx));
            }
        }
        if txs.len() == count && (forall|k: int| 0 <= k < txs.len() ==> (#[trigger] txs[k]).wf())
            && holds_at(bytes, pos, transactions_bytes(txs)) && end == pos + transactions_bytes(
            txs,
        ).len() {
            let front = txs.drop_last();
            let tx = txs.last();
            assert(tx == txs[n as int]);
            assert forall|k: int| 0 <= k < front.len() implies (#[trigger] front[k]).wf() by {
                assert(front[k] == txs[k]);
            }
            lemma_holds_concat(bytes, pos, transactions_bytes(front), transaction_bytes(tx));
            let next = pos + transactions_bytes(front).len();
            lemma_parse_transactions(bytes, pos, n, front, next);
            lemma_holds_transaction(bytes, next, tx);
            assert(front.push(tx) =~= txs);
        }
    }
}

/// Reading finds a block just when its stored form stands at the front of the bytes.
proof fn lemma_parse_block(bytes: Seq<u8>, block: BlockView)
    ensures
        parse_block(bytes) == Parsed::Value(block, block_bytes(block).len() as int)
            <==> block.wf() && holds_at(bytes, 0, block_bytes(block)),
        parse_block(bytes) matches Parsed::Value(read, end) ==> read.wf() && end == block_bytes(
            read,
        ).len(),
{
    let value = wire::be_bytes(block.coinbase_value as nat, 8);
    let count = wire::be_bytes(block.transactions.len(), 8);
    let txs = transactions_bytes(block.transactions);
    wire::lemma_be_limits();
    wire::lemma_be_bytes_len(block.coinbase_value as nat, 8);
    wire::lemma_be_bytes_len(block.transactions.len(), 8);
    lemma_holds_concat(bytes, 0, block.coinbase_txid + value + count, txs);
    lemma_holds_concat(bytes, 0, block.coinbase_txid + value, count);
    lemma_holds_concat(bytes, 0, block.coinbase_txid, value);
    if bytes.len() >= 24 {
        let n = word_at(bytes, 16);
        wire::lemma_be_value_bound(bytes.subrange(8, 16));
        wire::lemma_be_value_bound(bytes.subrange(16, 24));
        lemma_holds_number(bytes, 8, block.coinbase_value as nat, 8);
        let end = 24 + txs.len();
        lemma_parse_transactions(bytes, 24, n, block.transactions, end as int);
        if block.wf() || parse_block(bytes) is Value {
            if block.transactions.len() <= u64::MAX {
                lemma_holds_number(bytes, 16, block.transactions.len(), 8);
            }
        }
        if let Parsed::Value(read, e) = parse_block(bytes) {
            lemma_parse_transactions(bytes, 24, n, read.transactions, e);
            wire::lemma_be_bytes_len(read.coinbase_value as nat, 8);
            wire::lemma_be_bytes_len(read.transactions.len(), 8);
        }
        if block.wf() && holds_at(bytes, 0, block_bytes(block)) {
            assert(bytes.subrange(0, 8) == block.coinbase_txid);
        }
    }
}

/// Whatever stands behind it, the stored form of a block reads back as that block.
pub proof fn law_block_read_of_write(block: BlockView, rest: Seq<u8>)
    requires
        block.wf(),
    ensures
        parse_block(block_bytes(block) + rest) == Parsed::Value(
            block,
            block_bytes(block).len() as int,
        ),
{
    let bytes = block_bytes(block) + rest;
    assert(bytes.subrange(0, block_bytes(block).len() as int) =~= block_bytes(block));
    lemma_parse_block(bytes, block);
}

/// Bytes that read as a block begin with the stored form of that block.
pub proof fn law_block_write_of_read(bytes: Seq<u8>, block: BlockView, end: int)
    requires
        parse_block(bytes) == Parsed::Value(block, end),
    ensures
        block.wf(),
        0 <= end <= bytes.len(),
        bytes.take(end) == block_bytes(block),
{
    lemma_parse_block(bytes, block);
}

/// Two blocks of which one's stored form begins with the other's are the same block.
pub proof fn law_block_format_unambiguous(a: BlockView, b: BlockView, rest: Seq<u8>)
    requires
        a.wf(),
        b.wf(),
        block_bytes(a) == block_bytes(b) + rest,
    ensures
        a == b,
{
    law_block_read_of_write(b, rest);
    law_block_read_of_write(a, Seq::empty());
    assert(block_bytes(a) + Seq::empty() =~= block_bytes(a));
}

/// Where the parts of an input stand in its stored form.
pub proof fn law_input_layout(input: InputView)
    requires
        input.txin.len() == 8,
    ensures
        input_bytes(input).len() == 22,
        input_bytes(input).subrange(0, 8) == input.txin,
        wire::be_value(input_bytes(input).subrange(8, 12)) == input.block_height,
        wire::be_value(input_bytes(input).subrange(12, 14)) == input.vout,
        wire::be_value(input_bytes(input).subrange(14, 22)) == input.value,
{
    let bytes = input_bytes(input);
    wire::lemma_be_limits();
    wire::lemma_be_bytes_len(input.block_height as nat, 4);
    wire::lemma_be_bytes_len(input.vout as nat, 2);
    wire::lemma_be_bytes_len(input.value as nat, 8);
    wire::law_be_read_of_write(input.block_height as nat, 4);
    wire::law_be_read_of_write(input.vout as nat, 2);
    wire::law_be_read_of_write(input.value as nat, 8);
    assert(bytes.subrange(0, 8) =~= input.txin);
    assert(bytes.subrange(8, 12) =~= wire::be_bytes(input.block_height as nat, 4));
    assert(bytes.subrange(12, 14) =~= wire::be_bytes(input.vout as nat, 2));
    assert(bytes.subrange(14, 22) =~= wire::be_bytes(input.value as nat, 8));
}

/// Inputs stand one after the other, in their order.
pub proof fn law_inputs_layout(inputs: Seq<InputView>, k: int)
    requires
        forall|j: int| 0 <= j < inputs.len() ==> (#[trigger] inputs[j]).txin.len() == 8,
        0 <= k < inputs.len(),
    ensures
        inputs_bytes(inputs).len() == 22 * inputs.len(),
        inputs_bytes(inputs).subrange(22 * k, 22 * k + 22) == input_bytes(inputs[k]),
    decreases inputs.len(),
{
    let front = inputs.drop_last();
    assert forall|j: int| 0 <= j < front.len() implies (#[trigger] front[j]).txin.len() == 8 by {
        assert(inputs[j].txin.len() == 8);
    }
    assert(inputs[inputs.len() - 1] == inputs.last());
    law_input_layout(inputs.last());
    if front.len() > 0 {
        law_inputs_layout(front, if k < front.len() {
            k
        } else {
            0
        });
    } else {
        assert(inputs_bytes(front).len() == 0);
    }
    if k < front.len() {
        assert(inputs_bytes(inputs).subrange(22 * k, 22 * k + 22) =~= inputs_bytes(front).subrange(
            22 * k,
            22 * k + 22,
        ));
    } else {
        assert(inputs_bytes(inputs).subrange(22 * k, 22 * k + 22) =~= input_bytes(inputs.last()));
    }
}

/// Output values stand one after the other, in their order.
pub proof fn law_outputs_layout(outputs: Seq<u64>, k: int)
    requires
        0 <= k < outputs.len(),
    ensures
        outputs_bytes(outputs).len() == 8 * outputs.len(),
        wire::be_value(outputs_bytes(outputs).subrange(8 * k, 8 * k + 8)) == outputs[k],
    decreases outputs.len(),
{
    let front = outputs.drop_last();
    let last = wire::be_bytes(outputs.last() as nat, 8);
    wire::lemma_be_limits();
    wire::lemma_be_bytes_len(outputs.last() as nat, 8);
    wire::law_be_read_of_write(outputs.last() as nat, 8);
    lemma_outputs_len(outputs);
    lemma_outputs_len(front);
    let part = outputs_bytes(outputs).subrange(8 * k, 8 * k + 8);
    if k < front.len() {
        law_outputs_layout(front, k);
        assert(part =~= outputs_bytes(front).subrange(8 * k, 8 * k + 8));
    } else {
        assert(part =~= last);
    }
}

proof fn lemma_inputs_len(inputs: Seq<InputView>)
    requires
        forall|j: int| 0 <= j < inputs.len() ==> (#[trigger] inputs[j]).txin.len() == 8,
    ensures
        inputs_bytes(inputs).len() == 22 * inputs.len(),
{
    if inputs.len() > 0 {
        law_inputs_layout(inputs, 0);
    }
}

/// Where the parts of a transaction stand in its stored form: its identifier,
/// how many inputs it has, the inputs, how many outputs it has, their values.
pub proof fn law_transaction_layout(tx: TransactionView)
    requires
        tx.wf(),
    ensures
        ({
            let bytes = transaction_bytes(tx);
            let outputs_pos: int = 24int + 22 * tx.inputs.len();
            &&& bytes.len() == outputs_pos + 8 * tx.outputs.len()
            &&& bytes.subrange(0, 8) == tx.txid
            &&& wire::be_value(bytes.subrange(8, 16)) == tx.inputs.len()
            &&& bytes.subrange(16, outputs_pos - 8) == inputs_bytes(tx.inputs)
            &&& wire::be_value(bytes.subrange(outputs_pos - 8, outputs_pos)) == tx.outputs.len()
            &&& bytes.subrange(outputs_pos, bytes.len() as int) == outputs_bytes(tx.outputs)
        }),
{
    let bytes = transaction_bytes(tx);
    let outputs_pos: int = 24int + 22 * tx.inputs.len();
    assert forall|j: int| 0 <= j < tx.inputs.len() implies (
    #[trigger] tx.inputs[j]).txin.len() == 8 by {
        assert(tx.inputs[j].wf());
    }
    lemma_inputs_len(tx.inputs);
    lemma_outputs_len(tx.outputs);
    wire::lemma_be_limits();
    wire::lemma_be_bytes_len(tx.inputs.len(), 8);
    wire::lemma_be_bytes_len(tx.outputs.len(), 8);
    wire::law_be_read_of_write(tx.inputs.len(), 8);
    wire::law_be_read_of_write(tx.outputs.len(), 8);
    assert(bytes.subrange(0, 8) =~= tx.txid);
    assert(bytes.subrange(8, 16) =~= wire::be_bytes(tx.inputs.len(), 8));
    assert(bytes.subrange(16, outputs_pos - 8) =~= inputs_bytes(tx.inputs));
    assert(bytes.subrange(outputs_pos - 8, outputs_pos) =~= wire::be_bytes(tx.outputs.len(), 8));
    assert(bytes.subrange(outputs_pos, bytes.len() as int) =~= outputs_bytes(tx.outputs));
}

/// Transactions stand one after the other, in their order: with another one,
/// its stored form comes to the end.
pub proof fn law_transactions_layout(txs: Seq<TransactionView>, tx: TransactionView)
    ensures
        transactions_bytes(Seq::empty()) == Seq::<u8>::empty(),
        transactions_bytes(txs.push(tx)) == transactions_bytes(txs) + transaction_bytes(tx),
{
    assert(txs.push(tx).drop_last() =~= txs);
}

/// Where the parts of a block stand in its stored form: the coinbase's
/// identifier and value, how many transactions there are, the transactions.
pub proof fn law_block_layout(block: BlockView)
    requires
        block.wf(),
    ensures
        block_bytes(block).len() >= 24,
        block_bytes(block).subrange(0, 8) == block.coinbase_txid,
        wire::be_value(block_bytes(block).subrange(8, 16)) == block.coinbase_value,
        wire::be_value(block_bytes(block).subrange(16, 24)) == block.transactions.len(),
        block_bytes(block).skip(24) == transactions_bytes(block.transactions),
{
    let bytes = block_bytes(block);
    wire::lemma_be_limits();
    wire::lemma_be_bytes_len(block.coinbase_value as nat, 8);
    wire::lemma_be_bytes_len(block.transactions.len(), 8);
    wire::law_be_read_of_write(block.coinbase_value as nat, 8);
    wire::law_be_read_of_write(block.transactions.len(), 8);
    assert(bytes.subrange(0, 8) =~= block.coinbase_txid);
    assert(bytes.subrange(8, 16) =~= wire::be_bytes(block.coinbase_value as nat, 8));
    assert(bytes.subrange(16, 24) =~= wire::be_bytes(block.transactions.len(), 8));
    assert(bytes.skip(24) =~= transactions_bytes(block.transactions));
}

/// Numbers of eight bytes are read big-endian, and values one after the other.
pub proof fn law_values_are_read_in_order(bytes: Seq<u8>, pos: int, count: nat, k: int)
    requires
        0 <= pos,
        pos + 8 * count <= bytes.len(),
        0 <= k < count,
    ensures
        word_at(bytes, pos) == wire::be_value(bytes.subrange(pos, pos + 8)),
        outputs_at(bytes, pos, count).len() == count,
        outputs_at(bytes, pos, count)[k] == wire::be_value(
            bytes.subrange(pos + 8 * k, pos + 8 * k + 8),
        ),
{
    wire::lemma_be_limits();
    wire::lemma_be_value_bound(bytes.subrange(pos + 8 * k, pos + 8 * k + 8));
}

/// Where the bytes end too early for a transaction, the failure says whether
/// it is the number of inputs or outputs that is cut off, or something else.
/// Where they do not, the transaction is read, and ends where it should.
pub proof fn law_transaction_failures(bytes: Seq<u8>, pos: int)
    requires
        0 <= pos <= bytes.len(),
    ensures
        ({
            let left = bytes.len() - pos;
            let inputs = 22 * wire::be_value(bytes.subrange(pos + 8, pos + 16));
            let outputs = 8 * wire::be_value(
                bytes.subrange(pos + 16 + inputs, pos + 24 + inputs),
            );
            let count_cut_off = 8 <= left < 16 || 16 <= left && 16 + inputs <= left < 24 + inputs;
            match parse_transaction(bytes, pos) {
                Parsed::Value(_, end) => {
                    &&& left >= 16
                    &&& left >= 24 + inputs
                    &&& left >= 24 + inputs + outputs
                    &&& end == pos + 24 + inputs + outputs
                },
                Parsed::Failure(BlockParseError::CorruptedLength) => count_cut_off,
                Parsed::Failure(BlockParseError::UnexpectedEof) => {
                    &&& !count_cut_off
                    &&& left < 16 || left < 24 + inputs + outputs
                },
            }
        }),
{
}

/// Transactions are read one after the other, each where the one before it
/// ended, and the first failure is the failure of all.
pub proof fn law_transactions_are_read_in_turn(bytes: Seq<u8>, pos: int, count: nat)
    ensures
        parse_transactions(bytes, pos, 0) == Parsed::Value(Seq::<TransactionView>::empty(), pos),
        match parse_transactions(bytes, pos, count) {
            Parsed::Failure(e) => parse_transactions(bytes, pos, count + 1) == Parsed::<
                Seq<TransactionView>,
            >::Failure(e),
            Parsed::Value(txs, next) => match parse_transaction(bytes, next) {
                Parsed::Failure(e) => parse_transactions(bytes, pos, count + 1) == Parsed::<
                    Seq<TransactionView>,
                >::Failure(e),
                Parsed::Value(tx, end) => parse_transactions(bytes, pos, count + 1)
                    == Parsed::Value(txs.push(tx), end),
            },
        },
{
}

/// A block is refused for its first bytes, or for its transactions, and for nothing else.
pub proof fn law_block_failures(bytes: Seq<u8>)
    ensures
        bytes.len() < 16 ==> parse_block(bytes) == Parsed::<BlockView>::Failure(
            BlockParseError::UnexpectedEof,
        ),
        16 <= bytes.len() < 24 ==> parse_block(bytes) == Parsed::<BlockView>::Failure(
            BlockParseError::CorruptedLength,
        ),
        bytes.len() >= 24 ==> {
            let count = wire::be_value(bytes.subrange(16, 24));
            match parse_transactions(bytes, 24, count) {
                Parsed::Failure(e) => parse_block(bytes) == Parsed::<BlockView>::Failure(e),
                Parsed::Value(_, _) => parse_block(bytes) is Value,
            }
        },
{
}

/// Nothing but the whole of its stored form reads as a block.
pub proof fn law_truncated_block_is_refused(block: BlockView, len: int)
    requires
        block.wf(),
        0 <= len < block_bytes(block).len(),
    ensures
        parse_block(block_bytes(block).take(len)) is Failure,
{
    let bytes = block_bytes(block).take(len);
    if let Parsed::Value(read, end) = parse_block(bytes) {
        law_block_write_of_read(bytes, read, end);
        let rest = block_bytes(block).skip(end);
        assert(block_bytes(block).take(end) =~= bytes.take(end));
        assert(block_bytes(block) =~= block_bytes(read) + rest);
        law_block_format_unambiguous(block, read, rest);
    }
}

} // verus!
