//! Bitcoin transactions: their parts, their values, and the non-witness
//! serialisation over which the transaction id is computed.

use vstd::prelude::*;

use crate::wire::{compact_size_bytes, le_bytes};

verus! {

/// An amount of bitcoin, in satoshis.
#[derive(Debug, Clone, Copy, PartialEq, Eq)]
pub struct Amount {
    sats: u64,
}

impl View for Amount {
    type V = u64;

    closed spec fn view(&self) -> u64 {
        self.sats
    }
}

impl Amount {
    pub fn from_sat(sats: u64) -> (amount: Amount)
        ensures
            amount@ == sats,
    {
        Amount { sats }
    }

    pub fn to_sat(&self) -> (sats: u64)
        ensures
            sats == self@,
    {
        self.sats
    }
}

/// A transaction id: 32 bytes, in the order the hash produced them.
#[derive(Debug, PartialEq, Eq)]
pub struct Txid {
    bytes: Vec<u8>,
}

impl View for Txid {
    type V = Seq<u8>;

    closed spec fn view(&self) -> Seq<u8> {
        self.bytes@
    }
}

impl Txid {
    pub fn from_bytes(bytes: Vec<u8>) -> (txid: Txid)
        ensures
            txid@ == bytes@,
    {
        Txid { bytes }
    }

    pub fn as_bytes(&self) -> (bytes: &[u8])
        ensures
            bytes@ == self@,
    {
        self.bytes.as_slice()
    }
}

/// A transaction input: the output it spends, its unlocking script and its
/// sequence number.
#[derive(Debug, PartialEq, Eq)]
pub struct Input {
    pub txid: Txid,
    pub output_index: u32,
    pub script_sig: Vec<u8>,
    pub sequence: u32,
}

/// A transaction output: an amount and its locking script.
#[derive(Debug, PartialEq, Eq)]
pub struct Output {
    pub amount: Amount,
    pub script_pubkey: Vec<u8>,
}

/// The parts of a transaction that decoding reads, without its id.
#[derive(Debug, PartialEq, Eq)]
pub struct TransactionBody {
    pub version: u32,
    pub inputs: Vec<Input>,
    pub outputs: Vec<Output>,
    pub lock_time: u32,
}

/// A decoded transaction with its id.
#[derive(Debug, PartialEq, Eq)]
pub struct Transaction {
    pub transaction_id: Txid,
    pub version: u32,
    pub inputs: Vec<Input>,
    pub outputs: Vec<Output>,
    pub lock_time: u32,
}

#[verifier::ext_equal]
pub struct InputView {
    pub txid: Seq<u8>,
    pub output_index: u32,
    pub script_sig: Seq<u8>,
    pub sequence: u32,
}

#[verifier::ext_equal]
pub struct OutputView {
    pub amount: u64,
    pub script_pubkey: Seq<u8>,
}

#[verifier::ext_equal]
pub struct BodyView {
    pub version: u32,
    pub inputs: Seq<InputView>,
    pub outputs: Seq<OutputView>,
    pub lock_time: u32,
}

#[verifier::ext_equal]
pub struct TransactionView {
    pub transaction_id: Seq<u8>,
    pub version: u32,
    pub inputs: Seq<InputView>,
    pub outputs: Seq<OutputView>,
    pub lock_time: u32,
}

impl View for Input {
    type V = InputView;

    open spec fn view(&self) -> InputView {
        InputView {
            txid: self.txid@,
            output_index: self.output_index,
            script_sig: self.script_sig@,
            sequence: self.sequence,
        }
    }
}

impl View for Output {
    type V = OutputView;

    open spec fn view(&self) -> OutputView {
        OutputView { amount: self.amount@, script_pubkey: self.script_pubkey@ }
    }
}

pub open spec fn input_views(inputs: Seq<Input>) -> Seq<InputView> {
    inputs.map_values(|input: Input| input@)
}

pub open spec fn output_views(outputs: Seq<Output>) -> Seq<OutputView> {
    outputs.map_values(|output: Output| output@)
}

impl View for TransactionBody {
    type V = BodyView;

    open spec fn view(&self) -> BodyView {
        BodyView {
            version: self.version,
            inputs: input_views(self.inputs@),
            outputs: output_views(self.outputs@),
            lock_time: self.lock_time,
        }
    }
}

impl View for Transaction {
    type V = TransactionView;

    open spec fn view(&self) -> TransactionView {
        TransactionView {
            transaction_id: self.transaction_id@,
            version: self.version,
            inputs: input_views(self.inputs@),
            outputs: output_views(self.outputs@),
            lock_time: self.lock_time,
        }
    }
}

/// Every length the wire format writes fits in a `u64`, and every spent
/// transaction id is 32 bytes long.
pub open spec fn serialisable(body: BodyView) -> bool {
    &&& body.inputs.len() <= u64::MAX
    &&& body.outputs.len() <= u64::MAX
    &&& forall|k: int|
        0 <= k < body.inputs.len() ==> (#[trigger] body.inputs[k]).txid.len() == 32
            && body.inputs[k].script_sig.len() <= u64::MAX
    &&& forall|k: int|
        0 <= k < body.outputs.len() ==> (#[trigger] body.outputs[k]).script_pubkey.len()
            <= u64::MAX
}

/// A byte string preceded by its CompactSize length.
pub open spec fn sized_bytes(bytes: Seq<u8>) -> Seq<u8> {
    compact_size_bytes(bytes.len() as u64) + bytes
}

/// The serialisation of one input.
pub open spec fn input_bytes(input: InputView) -> Seq<u8> {
    input.txid + le_bytes(input.output_index as nat, 4) + sized_bytes(input.script_sig) + le_bytes(
        input.sequence as nat,
        4,
    )
}

/// The serialisation of one output.
pub open spec fn output_bytes(output: OutputView) -> Seq<u8> {
    le_bytes(output.amount as nat, 8) + sized_bytes(output.script_pubkey)
}

/// The serialisations of the inputs, one after the other.
pub open spec fn inputs_bytes(inputs: Seq<InputView>) -> Seq<u8>
    decreases inputs.len(),
{
    if inputs.len() == 0 {
        Seq::empty()
    } else {
        inputs_bytes(inputs.drop_last()) + input_bytes(inputs.last())
    }
}

/// The serialisations of the outputs, one after the other.
pub open spec fn outputs_bytes(outputs: Seq<OutputView>) -> Seq<u8>
    decreases outputs.len(),
{
    if outputs.len() == 0 {
        Seq::empty()
    } else {
        outputs_bytes(outputs.drop_last()) + output_bytes(outputs.last())
    }
}

/// The serialisation of a transaction without SegWit marker, flag and
/// witnesses: version, inputs, outputs and lock time, each list preceded by
/// its CompactSize count. The transaction id is computed over these bytes.
pub open spec fn stripped_bytes(body: BodyView) -> Seq<u8> {
    le_bytes(body.version as nat, 4) + compact_size_bytes(body.inputs.len() as u64) + inputs_bytes(
        body.inputs,
    ) + compact_size_bytes(body.outputs.len() as u64) + outputs_bytes(body.outputs) + le_bytes(
        body.lock_time as nat,
        4,
    )
}

/// The witness items of one input, each preceded by its CompactSize length.
pub open spec fn witness_items_bytes(items: Seq<Seq<u8>>) -> Seq<u8>
    decreases items.len(),
{
    if items.len() == 0 {
        Seq::empty()
    } else {
        sized_bytes(items[0]) + witness_items_bytes(items.drop_first())
    }
}

/// The witness stacks, one per input, each preceded by its item count.
pub open spec fn witnesses_bytes(stacks: Seq<Seq<Seq<u8>>>) -> Seq<u8>
    decreases stacks.len(),
{
    if stacks.len() == 0 {
        Seq::empty()
    } else {
        compact_size_bytes(stacks[0].len() as u64) + witness_items_bytes(stacks[0])
            + witnesses_bytes(stacks.drop_first())
    }
}

/// The SegWit serialisation of a transaction with the given witness stacks:
/// version, marker `0x00` and flag `0x01`, inputs, outputs, witnesses and
/// lock time.
pub open spec fn segwit_bytes(body: BodyView, stacks: Seq<Seq<Seq<u8>>>) -> Seq<u8> {
    le_bytes(body.version as nat, 4) + seq![0u8, 1u8] + compact_size_bytes(
        body.inputs.len() as u64,
    ) + inputs_bytes(body.inputs) + compact_size_bytes(body.outputs.len() as u64) + outputs_bytes(
        body.outputs,
    ) + witnesses_bytes(stacks) + le_bytes(body.lock_time as nat, 4)
}

} // verus!
