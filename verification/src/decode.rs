//! Decoding raw Bitcoin transactions from hexadecimal text: a cursor over
//! the bytes, the grammar of the wire format, and the transaction id.

use vstd::prelude::*;
use vstd::slice::{slice_subrange, slice_to_vec};
use vstd::string::StringSliceAdditionalSpecFns;

use sha2::{Digest, Sha256};

use crate::hex_text::{
    decode_hex, encode_hex, hex_decoded, hex_encoded, lemma_hex_roundtrip, HexError,
};
use crate::transaction::{
    input_bytes, input_views, inputs_bytes, output_bytes, output_views, outputs_bytes,
    stripped_bytes, Amount, BodyView, Input, InputView, Output, OutputView, Transaction,
    TransactionBody, TransactionView, Txid,
};
use crate::wire::{
    compact_size_bytes, compact_size_parse, le_u16, le_u32, le_u64, le_value, lemma_byte_ranges,
    lemma_le_value_bound, push_le, take_le,
};

verus! {

/// Why raw transaction text could not be decoded.
#[derive(Debug, Clone, Copy, PartialEq, Eq, Structural)]
pub enum DecodeError {
    /// The text is not hexadecimal.
    InvalidHex(HexError),
    /// The bytes end before the transaction does.
    UnexpectedEnd,
    /// The bytes end inside the amount of an output. Decoding such input is
    /// a fatal error: `decode_transaction` is not to be called on it.
    AmountCutShort,
}

/// The outcome of reading a part of a transaction off the front of some
/// bytes: the part and the bytes after it, or why it could not be read.
pub enum Parsed<T> {
    Value(T, Seq<u8>),
    /// The bytes end too early.
    Short,
    /// The bytes end inside the amount of an output.
    CutInAmount,
}

/// A little-endian `u32` off the front of `bytes`.
pub open spec fn parse_u32(bytes: Seq<u8>) -> Option<(u32, Seq<u8>)> {
    match take_le(bytes, 4) {
        Some((n, rest)) => Some((n as u32, rest)),
        None => None,
    }
}

/// The first `count` bytes, and what follows them.
pub open spec fn parse_bytes(bytes: Seq<u8>, count: nat) -> Option<(Seq<u8>, Seq<u8>)> {
    if bytes.len() >= count {
        Some((bytes.take(count as int), bytes.skip(count as int)))
    } else {
        None
    }
}

/// A byte string preceded by its CompactSize length.
pub open spec fn parse_script(bytes: Seq<u8>) -> Option<(Seq<u8>, Seq<u8>)> {
    match compact_size_parse(bytes) {
        Some((len, rest)) => parse_bytes(rest, len as nat),
        None => None,
    }
}

/// One input: the 32-byte id of the spent transaction, the output index,
/// the unlocking script and the sequence number.
pub open spec fn parse_input(bytes: Seq<u8>) -> Option<(InputView, Seq<u8>)> {
    match parse_bytes(bytes, 32) {
        None => None,
        Some((txid, r1)) => match parse_u32(r1) {
            None => None,
            Some((output_index, r2)) => match parse_script(r2) {
                None => None,
                Some((script_sig, r3)) => match parse_u32(r3) {
                    None => None,
                    Some((sequence, r4)) => Some(
                        (InputView { txid, output_index, script_sig, sequence }, r4),
                    ),
                },
            },
        },
    }
}

/// `count` inputs, one after the other.
pub open spec fn parse_inputs(bytes: Seq<u8>, count: nat) -> Option<(Seq<InputView>, Seq<u8>)>
    decreases count,
{
    if count == 0 {
        Some((Seq::empty(), bytes))
    } else {
        match parse_input(bytes) {
            None => None,
            Some((first, rest)) => match parse_inputs(rest, (count - 1) as nat) {
                None => None,
                Some((more, after)) => Some((seq![first] + more, after)),
            },
        }
    }
}

/// One output: an 8-byte little-endian amount and the locking script.
pub open spec fn parse_output(bytes: Seq<u8>) -> Parsed<OutputView> {
    if bytes.len() < 8 {
        Parsed::CutInAmount
    } else {
        match parse_script(bytes.skip(8)) {
            None => Parsed::Short,
            Some((script_pubkey, rest)) => Parsed::Value(
                OutputView { amount: le_value(bytes.take(8)) as u64, script_pubkey },
                rest,
            ),
        }
    }
}

/// `count` outputs, one after the other.
pub open spec fn parse_outputs(bytes: Seq<u8>, count: nat) -> Parsed<Seq<OutputView>>
    decreases count,
{
    if count == 0 {
        Parsed::Value(Seq::empty(), bytes)
    } else {
        match parse_output(bytes) {
            Parsed::Value(first, rest) => match parse_outputs(rest, (count - 1) as nat) {
                Parsed::Value(more, after) => Parsed::Value(seq![first] + more, after),
                Parsed::Short => Parsed::Short,
                Parsed::CutInAmount => Parsed::CutInAmount,
            },
            Parsed::Short => Parsed::Short,
            Parsed::CutInAmount => Parsed::CutInAmount,
        }
    }
}

/// What follows `count` witness items, each a byte string preceded by its
/// CompactSize length.
pub open spec fn skip_witness_items(bytes: Seq<u8>, count: nat) -> Option<Seq<u8>>
    decreases count,
{
    if count == 0 {
        Some(bytes)
    } else {
        match parse_script(bytes) {
            None => None,
            Some((_, rest)) => skip_witness_items(rest, (count - 1) as nat),
        }
    }
}

/// What follows `count` witness stacks, each a CompactSize count of items
/// and the items.
pub open spec fn skip_witnesses(bytes: Seq<u8>, count: nat) -> Option<Seq<u8>>
    decreases count,
{
    if count == 0 {
        Some(bytes)
    } else {
        match compact_size_parse(bytes) {
            None => None,
            Some((items, rest)) => match skip_witness_items(rest, items as nat) {
                None => None,
                Some(after) => skip_witnesses(after, (count - 1) as nat),
            },
        }
    }
}

/// A SegWit transaction has, after its version, a zero marker byte and a
/// non-zero flag byte.
pub open spec fn segwit_marked(bytes: Seq<u8>) -> bool {
    bytes.len() >= 2 && bytes[0] == 0 && bytes[1] != 0
}

/// The grammar of a raw transaction: version; for SegWit, marker and flag;
/// the input count and inputs; the output count and outputs; for SegWit, a
/// witness stack per input; the lock time. What follows the lock time is
/// left over.
pub open spec fn parse_transaction(raw: Seq<u8>) -> Parsed<BodyView> {
    match parse_u32(raw) {
        None => Parsed::Short,
        Some((version, r0)) => {
            let segwit = segwit_marked(r0);
            let r1 = if segwit {
                r0.skip(2)
            } else {
                r0
            };
            match compact_size_parse(r1) {
                None => Parsed::Short,
                Some((input_count, r2)) => match parse_inputs(r2, input_count as nat) {
                    None => Parsed::Short,
                    Some((inputs, r3)) => match compact_size_parse(r3) {
                        None => Parsed::Short,
                        Some((output_count, r4)) => match parse_outputs(r4, output_count as nat) {
                            Parsed::Short => Parsed::Short,
                            Parsed::CutInAmount => Parsed::CutInAmount,
                            Parsed::Value(outputs, r5) => {
                                let r6 = if segwit {
                                    skip_witnesses(r5, input_count as nat)
                                } else {
                                    Some(r5)
                                };
                                match r6 {
                                    None => Parsed::Short,
                                    Some(r6) => match parse_u32(r6) {
                                        None => Parsed::Short,
                                        Some((lock_time, r7)) => Parsed::Value(
                                            BodyView { version, inputs, outputs, lock_time },
                                            r7,
                                        ),
                                    },
                                }
                            },
                        },
                    },
                },
            }
        },
    }
}

/// The SHA-256 digest of some bytes.
pub uninterp spec fn sha256(data: Seq<u8>) -> Seq<u8>;

/// `Sha256::digest` from `sha2`: the SHA-256 digest of `data`, which is 32
/// bytes long. What the digest is, is named by `sha256` and not stated.
#[verifier::external_body]
fn sha256_digest(data: &[u8]) -> (digest: Vec<u8>)
    ensures
        digest@ == sha256(data@),
        digest@.len() == 32,
{
    Sha256::digest(data).to_vec()
}

/// Moves the cursor `count` bytes on.
fn advance(bytes: &mut &[u8], count: usize)
    requires
        count <= old(bytes)@.len(),
    ensures
        final(bytes)@ == old(bytes)@.skip(count as int),
{
    *bytes = slice_subrange(*bytes, count, bytes.len());
}

/// Reads a little-endian `u32` off the front of the cursor. Too few bytes
/// is `UnexpectedEnd`, and the cursor does not move.
pub fn read_u32(bytes_slice: &mut &[u8]) -> (n: Result<u32, DecodeError>)
    ensures
        match parse_u32(old(bytes_slice)@) {
            Some((v, rest)) => n == Ok::<u32, DecodeError>(v) && final(bytes_slice)@ == rest,
            None => n == Err::<u32, DecodeError>(DecodeError::UnexpectedEnd) && final(bytes_slice)@
                == old(bytes_slice)@,
        },
{
    if bytes_slice.len() < 4 {
        return Err(DecodeError::UnexpectedEnd);
    }
    let n = le_u32(*bytes_slice);
    advance(bytes_slice, 4);
    Ok(n)
}

/// Reads the 4-byte little-endian version off the front of the raw
/// transaction bytes.
pub fn read_version_byte(transaction_bytes: &mut &[u8]) -> (version: Result<u32, DecodeError>)
    ensures
        match parse_u32(old(transaction_bytes)@) {
            Some((v, rest)) => version == Ok::<u32, DecodeError>(v) && final(transaction_bytes)@
                == rest,
            None => version == Err::<u32, DecodeError>(DecodeError::UnexpectedEnd) && final(transaction_bytes)@ == old(transaction_bytes)@,
        },
{
    read_u32(transaction_bytes)
}

/// Reads a little-endian `u64` off the front of the cursor, which must hold
/// at least eight bytes.
pub fn read_u64(transaction_bytes: &mut &[u8]) -> (n: u64)
    requires
        old(transaction_bytes)@.len() >= 8,
    ensures
        n == le_value(old(transaction_bytes)@.take(8)),
        final(transaction_bytes)@ == old(transaction_bytes)@.skip(8),
{
    let n = le_u64(*transaction_bytes);
    advance(transaction_bytes, 8);
    n
}

/// Reads an amount in satoshis (a little-endian `u64`) off the front of the
/// cursor, which must hold at least eight bytes.
pub fn read_amount(transaction_bytes: &mut &[u8]) -> (amount: Result<Amount, DecodeError>)
    requires
        old(transaction_bytes)@.len() >= 8,
    ensures
        amount matches Ok(a) && a@ == le_value(old(transaction_bytes)@.take(8)),
        final(transaction_bytes)@ == old(transaction_bytes)@.skip(8),
{
    Ok(Amount::from_sat(read_u64(transaction_bytes)))
}

/// Reads a CompactSize integer off the front of the cursor, as
/// `compact_size_parse` says. Too few bytes is `UnexpectedEnd`, and the
/// cursor does not move.
pub fn read_compact_size(transaction_bytes: &mut &[u8]) -> (n: Result<u64, DecodeError>)
    ensures
        match compact_size_parse(old(transaction_bytes)@) {
            Some((v, rest)) => n == Ok::<u64, DecodeError>(v) && final(transaction_bytes)@ == rest,
            None => n == Err::<u64, DecodeError>(DecodeError::UnexpectedEnd) && final(transaction_bytes)@ == old(transaction_bytes)@,
        },
{
    if transaction_bytes.len() == 0 {
        return Err(DecodeError::UnexpectedEnd);
    }
    let prefix = transaction_bytes[0];
    let ghost rest = old(transaction_bytes)@.drop_first();
    let rest_slice = slice_subrange(*transaction_bytes, 1, transaction_bytes.len());
    assert(rest_slice@ =~= rest);
    if prefix <= 0xfc {
        *transaction_bytes = rest_slice;
        Ok(prefix as u64)
    } else if prefix == 0xfd {
        if rest_slice.len() < 2 {
            return Err(DecodeError::UnexpectedEnd);
        }
        let n = le_u16(rest_slice);
        *transaction_bytes = slice_subrange(rest_slice, 2, rest_slice.len());
        Ok(n as u64)
    } else if prefix == 0xfe {
        if rest_slice.len() < 4 {
            return Err(DecodeError::UnexpectedEnd);
        }
        let n = le_u32(rest_slice);
        *transaction_bytes = slice_subrange(rest_slice, 4, rest_slice.len());
        Ok(n as u64)
    } else {
        if rest_slice.len() < 8 {
            return Err(DecodeError::UnexpectedEnd);
        }
        let n = le_u64(rest_slice);
        *transaction_bytes = slice_subrange(rest_slice, 8, rest_slice.len());
        Ok(n)
    }
}

/// Reads the 32-byte id of a spent transaction off the front of the cursor.
/// Too few bytes is `UnexpectedEnd`, and the cursor does not move.
pub fn read_txid(transaction_bytes: &mut &[u8]) -> (txid: Result<Txid, DecodeError>)
    ensures
        match parse_bytes(old(transaction_bytes)@, 32) {
            Some((id, rest)) => txid matches Ok(t) && t@ == id && final(transaction_bytes)@ == rest,
            None => txid == Err::<Txid, DecodeError>(DecodeError::UnexpectedEnd) && final(transaction_bytes)@ == old(transaction_bytes)@,
        },
{
    if transaction_bytes.len() < 32 {
        return Err(DecodeError::UnexpectedEnd);
    }
    let id = slice_to_vec(slice_subrange(*transaction_bytes, 0, 32));
    advance(transaction_bytes, 32);
    Ok(Txid::from_bytes(id))
}

/// Reads a CompactSize-prefixed script off the front of the cursor and
/// returns it as lower-case hexadecimal text. Too few bytes is
/// `UnexpectedEnd`, and the cursor does not move.
pub fn read_script_size(transaction_bytes: &mut &[u8]) -> (script: Result<String, DecodeError>)
    ensures
        match parse_script(old(transaction_bytes)@) {
            Some((s, rest)) => script matches Ok(text) && text@ == hex_encoded(s) && final(transaction_bytes)@ == rest,
            None => script == Err::<String, DecodeError>(DecodeError::UnexpectedEnd) && final(transaction_bytes)@ == old(transaction_bytes)@,
        },
{
    let mut rest: &[u8] = *transaction_bytes;
    let len = read_compact_size(&mut rest)?;
    if (rest.len() as u64) < len {
        return Err(DecodeError::UnexpectedEnd);
    }
    let script = slice_to_vec(slice_subrange(rest, 0, len as usize));
    advance(&mut rest, len as usize);
    *transaction_bytes = rest;
    Ok(encode_hex(script.as_slice()))
}

/// The transaction id: the double SHA-256 of the serialised (non-witness)
/// bytes.
pub fn hash_row_transaction(row_transaction_bytes: &[u8]) -> (id: Result<Txid, DecodeError>)
    ensures
        id matches Ok(txid) && txid@ == sha256(sha256(row_transaction_bytes@)),
{
    let first = sha256_digest(row_transaction_bytes);
    let second = sha256_digest(first.as_slice());
    Ok(Txid::from_bytes(second))
}

/// Appends `data` to `buf`.
fn push_all(buf: &mut Vec<u8>, data: &[u8])
    ensures
        final(buf)@ == old(buf)@ + data@,
{
    let mut i: usize = 0;
    while i < data.len()
        invariant
            i <= data@.len(),
            buf@ == old(buf)@ + data@.take(i as int),
        decreases data.len() - i,
    {
        buf.push(data[i]);
        assert(data@.take(i + 1) =~= data@.take(i as int).push(data@[i as int]));
        i += 1;
    }
    assert(data@.take(i as int) =~= data@);
}

/// Encodes `n` as a CompactSize integer and appends it to `buf`.
pub fn push_compact_size(buf: &mut Vec<u8>, n: u64)
    ensures
        final(buf)@ == old(buf)@ + compact_size_bytes(n),
{
    if n <= 0xfc {
        buf.push(n as u8);
        assert(buf@ =~= old(buf)@ + compact_size_bytes(n));
    } else if n <= 0xffff {
        buf.push(0xfd);
        push_le(buf, n, 2);
        assert(buf@ =~= old(buf)@ + compact_size_bytes(n));
    } else if n <= 0xffff_ffff {
        buf.push(0xfe);
        push_le(buf, n, 4);
        assert(buf@ =~= old(buf)@ + compact_size_bytes(n));
    } else {
        buf.push(0xff);
        push_le(buf, n, 8);
        assert(buf@ =~= old(buf)@ + compact_size_bytes(n));
    }
}

/// Decodes the hexadecimal text of a script back into its bytes.
fn script_bytes(text: String) -> (script: Result<Vec<u8>, DecodeError>)
    ensures
        forall|s: Seq<u8>| text@ == hex_encoded(s) ==> (script matches Ok(v) && v@ == s),
{
    proof {
        if exists|s: Seq<u8>| text@ == hex_encoded(s) {
            let s = choose|s: Seq<u8>| text@ == hex_encoded(s);
            lemma_hex_roundtrip(s);
            assert forall|s2: Seq<u8>| text@ == hex_encoded(s2) implies s2 == s by {
                lemma_hex_roundtrip(s2);
            }
        }
    }
    match decode_hex(text.as_str()) {
        Ok(script) => Ok(script),
        Err(e) => Err(DecodeError::InvalidHex(e)),
    }
}

/// Reads one input off the front of the cursor.
fn read_input(bytes: &mut &[u8]) -> (input: Result<Input, DecodeError>)
    ensures
        match parse_input(old(bytes)@) {
            Some((v, rest)) => input matches Ok(i) && i@ == v && final(bytes)@ == rest,
            None => input == Err::<Input, DecodeError>(DecodeError::UnexpectedEnd),
        },
{
    let txid = read_txid(bytes)?;
    let output_index = read_u32(bytes)?;
    let script_sig = script_bytes(read_script_size(bytes)?)?;
    let sequence = read_u32(bytes)?;
    Ok(Input { txid, output_index, script_sig, sequence })
}

/// Reads one output off the front of the cursor; a cursor that ends inside
/// the amount is `AmountCutShort`.
fn read_output(bytes: &mut &[u8]) -> (output: Result<Output, DecodeError>)
    ensures
        match parse_output(old(bytes)@) {
            Parsed::Value(v, rest) => output matches Ok(o) && o@ == v && final(bytes)@ == rest,
            Parsed::Short => output == Err::<Output, DecodeError>(DecodeError::UnexpectedEnd),
            Parsed::CutInAmount => output == Err::<Output, DecodeError>(DecodeError::AmountCutShort),
        },
{
    if bytes.len() < 8 {
        return Err(DecodeError::AmountCutShort);
    }
    let amount = read_amount(bytes)?;
    let script_pubkey = script_bytes(read_script_size(bytes)?)?;
    Ok(Output { amount, script_pubkey })
}

/// Appends the serialisation of an input.
fn push_input_bytes(buf: &mut Vec<u8>, input: &Input)
    ensures
        final(buf)@ == old(buf)@ + input_bytes(input@),
{
    push_all(buf, input.txid.as_bytes());
    push_le(buf, input.output_index as u64, 4);
    push_compact_size(buf, input.script_sig.len() as u64);
    push_all(buf, input.script_sig.as_slice());
    push_le(buf, input.sequence as u64, 4);
    assert(buf@ =~= old(buf)@ + input_bytes(input@));
}

/// Appends the serialisation of an output.
fn push_output_bytes(buf: &mut Vec<u8>, output: &Output)
    ensures
        final(buf)@ == old(buf)@ + output_bytes(output@),
{
    push_le(buf, output.amount.to_sat(), 8);
    push_compact_size(buf, output.script_pubkey.len() as u64);
    push_all(buf, output.script_pubkey.as_slice());
    assert(buf@ =~= old(buf)@ + output_bytes(output@));
}

/// Reads `count` inputs off the front of the cursor, appending their
/// serialisation to `stripped`.
fn read_inputs(bytes: &mut &[u8], count: u64, stripped: &mut Vec<u8>) -> (inputs: Result<Vec<Input>, DecodeError>)
    ensures
        match parse_inputs(old(bytes)@, count as nat) {
            Some((v, rest)) => inputs matches Ok(ins) && input_views(ins@) == v && final(bytes)@
                == rest && final(stripped)@ == old(stripped)@ + inputs_bytes(v),
            None => inputs == Err::<Vec<Input>, DecodeError>(DecodeError::UnexpectedEnd),
        },
{
    let ghost start = bytes@;
    let mut inputs: Vec<Input> = Vec::new();
    let mut done: u64 = 0;
    while done < count
        invariant
            done <= count,
            start == old(bytes)@,
            parse_inputs(start, count as nat) == match parse_inputs(bytes@, (count - done) as nat) {
                Some((more, after)) => Some((input_views(inputs@) + more, after)),
                None => None,
            },
            stripped@ == old(stripped)@ + inputs_bytes(input_views(inputs@)),
        decreases count - done,
    {
        let ghost here = bytes@;
        let ghost earlier = inputs@;
        let input = match read_input(bytes) {
            Ok(input) => input,
            Err(e) => {
                assert(parse_inputs(here, (count - done) as nat) is None);
                return Err(e);
            },
        };
        push_input_bytes(stripped, &input);
        inputs.push(input);
        proof {
            let views = input_views(inputs@);
            assert(views =~= input_views(earlier).push(input@));
            assert(views.drop_last() =~= input_views(earlier));
            let next = parse_inputs(bytes@, (count - done - 1) as nat);
            if let Some((more, after)) = next {
                assert(input_views(earlier) + (seq![input@] + more) =~= views + more);
            }
        }
        done += 1;
    }
    proof {
        assert(input_views(inputs@) + Seq::<InputView>::empty() =~= input_views(inputs@));
    }
    Ok(inputs)
}

/// Reads `count` outputs off the front of the cursor, appending their
/// serialisation to `stripped`.
fn read_outputs(bytes: &mut &[u8], count: u64, stripped: &mut Vec<u8>) -> (outputs: Result<Vec<Output>, DecodeError>)
    ensures
        match parse_outputs(old(bytes)@, count as nat) {
            Parsed::Value(v, rest) => outputs matches Ok(outs) && output_views(outs@) == v && final(bytes)@
                == rest && final(stripped)@ == old(stripped)@ + outputs_bytes(v),
            Parsed::Short => outputs == Err::<Vec<Output>, DecodeError>(DecodeError::UnexpectedEnd),
            Parsed::CutInAmount => outputs == Err::<Vec<Output>, DecodeError>(
                DecodeError::AmountCutShort,
            ),
        },
{
    let ghost start = bytes@;
    let mut outputs: Vec<Output> = Vec::new();
    let mut done: u64 = 0;
    while done < count
        invariant
            done <= count,
            start == old(bytes)@,
            parse_outputs(start, count as nat) == match parse_outputs(bytes@, (count - done) as nat) {
                Parsed::Value(more, after) => Parsed::Value(output_views(outputs@) + more, after),
                Parsed::Short => Parsed::Short,
                Parsed::CutInAmount => Parsed::CutInAmount,
            },
            stripped@ == old(stripped)@ + outputs_bytes(output_views(outputs@)),
        decreases count - done,
    {
        let ghost here = bytes@;
        let ghost earlier = outputs@;
        let output = match read_output(bytes) {
            Ok(output) => output,
            Err(e) => {
                assert(parse_outputs(here, (count - done) as nat) == match parse_output(here) {
                    Parsed::Short => Parsed::<Seq<OutputView>>::Short,
                    _ => Parsed::<Seq<OutputView>>::CutInAmount,
                });
                return Err(e);
            },
        };
        push_output_bytes(stripped, &output);
        outputs.push(output);
        proof {
            let views = output_views(outputs@);
            assert(views =~= output_views(earlier).push(output@));
            assert(views.drop_last() =~= output_views(earlier));
            let next = parse_outputs(bytes@, (count - done - 1) as nat);
            if let Parsed::Value(more, after) = next {
                assert(output_views(earlier) + (seq![output@] + more) =~= views + more);
            }
        }
        done += 1;
    }
    proof {
        assert(output_views(outputs@) + Seq::<OutputView>::empty() =~= output_views(outputs@));
    }
    Ok(outputs)
}

/// Reads past `count` witness items.
fn skip_witness_stack(bytes: &mut &[u8], count: u64) -> (skipped: Result<(), DecodeError>)
    ensures
        match skip_witness_items(old(bytes)@, count as nat) {
            Some(rest) => skipped is Ok && final(bytes)@ == rest,
            None => skipped == Err::<(), DecodeError>(DecodeError::UnexpectedEnd),
        },
{
    let ghost start = bytes@;
    let mut done: u64 = 0;
    while done < count
        invariant
            done <= count,
            start == old(bytes)@,
            skip_witness_items(start, count as nat) == skip_witness_items(
                bytes@,
                (count - done) as nat,
            ),
        decreases count - done,
    {
        let ghost here = bytes@;
        let text = match read_script_size(bytes) {
            Ok(text) => text,
            Err(e) => {
                assert(skip_witness_items(here, (count - done) as nat) is None);
                return Err(e);
            },
        };
        let _item = script_bytes(text)?;
        done += 1;
    }
    Ok(())
}

/// Reads past `count` witness stacks, one per input.
fn skip_witness_data(bytes: &mut &[u8], count: u64) -> (skipped: Result<(), DecodeError>)
    ensures
        match skip_witnesses(old(bytes)@, count as nat) {
            Some(rest) => skipped is Ok && final(bytes)@ == rest,
            None => skipped == Err::<(), DecodeError>(DecodeError::UnexpectedEnd),
        },
{
    let ghost start = bytes@;
    let mut done: u64 = 0;
    while done < count
        invariant
            done <= count,
            start == old(bytes)@,
            skip_witnesses(start, count as nat) == skip_witnesses(bytes@, (count - done) as nat),
        decreases count - done,
    {
        let ghost here = bytes@;
        let item_count = match read_compact_size(bytes) {
            Ok(n) => n,
            Err(e) => {
                assert(skip_witnesses(here, (count - done) as nat) is None);
                return Err(e);
            },
        };
        match skip_witness_stack(bytes, item_count) {
            Ok(()) => {},
            Err(e) => {
                assert(skip_witnesses(here, (count - done) as nat) is None);
                return Err(e);
            },
        }
        done += 1;
    }
    Ok(())
}

/// `count` inputs are read as a list of `count`.
pub proof fn lemma_parse_inputs_len(bytes: Seq<u8>, count: nat)
    ensures
        parse_inputs(bytes, count) matches Some((v, _)) ==> v.len() == count,
    decreases count,
{
    if count > 0 {
        if let Some((_, rest)) = parse_input(bytes) {
            lemma_parse_inputs_len(rest, (count - 1) as nat);
        }
    }
}

/// `count` outputs are read as a list of `count`.
pub proof fn lemma_parse_outputs_len(bytes: Seq<u8>, count: nat)
    ensures
        parse_outputs(bytes, count) matches Parsed::Value(v, _) ==> v.len() == count,
    decreases count,
{
    if count > 0 {
        if let Parsed::Value(_, rest) = parse_output(bytes) {
            lemma_parse_outputs_len(rest, (count - 1) as nat);
        }
    }
}

/// Reads the parts of a raw transaction (all but its id) from its bytes, as
/// `parse_transaction` says, and rebuilds its stripped serialisation.
pub fn parse_transaction_body(raw: &[u8]) -> (parsed: Result<(TransactionBody, Vec<u8>), DecodeError>)
    ensures
        match parse_transaction(raw@) {
            Parsed::Value(body, _) => parsed matches Ok((b, stripped)) && b@ == body && stripped@
                == stripped_bytes(body),
            Parsed::Short => parsed == Err::<(TransactionBody, Vec<u8>), DecodeError>(
                DecodeError::UnexpectedEnd,
            ),
            Parsed::CutInAmount => parsed == Err::<(TransactionBody, Vec<u8>), DecodeError>(
                DecodeError::AmountCutShort,
            ),
        },
{
    let mut bytes: &[u8] = raw;
    let version = read_version_byte(&mut bytes)?;

    // The txid is computed over the serialized transaction without the SegWit
    // marker, flag, or witness data, so we rebuild that stripped serialization.
    let mut stripped: Vec<u8> = Vec::new();
    push_le(&mut stripped, version as u64, 4);

    // Detect SegWit: a 0x00 marker followed by a non-zero flag byte.
    let mut segwit = false;
    if bytes.len() >= 2 && bytes[0] == 0 && bytes[1] != 0 {
        segwit = true;
        advance(&mut bytes, 2);
    }
    let ghost after_marker = bytes@;

    let input_count = read_compact_size(&mut bytes)?;
    push_compact_size(&mut stripped, input_count);
    let ghost before_inputs = bytes@;
    let inputs = read_inputs(&mut bytes, input_count, &mut stripped)?;
    proof {
        lemma_parse_inputs_len(before_inputs, input_count as nat);
    }

    let output_count = read_compact_size(&mut bytes)?;
    push_compact_size(&mut stripped, output_count);
    let ghost before_outputs = bytes@;
    let outputs = read_outputs(&mut bytes, output_count, &mut stripped)?;
    proof {
        lemma_parse_outputs_len(before_outputs, output_count as nat);
    }

    // Each input has its own witness stack of CompactSize-prefixed items.
    if segwit {
        skip_witness_data(&mut bytes, input_count)?;
    }

    let lock_time = read_u32(&mut bytes)?;
    push_le(&mut stripped, lock_time as u64, 4);
    let body = TransactionBody { version, inputs, outputs, lock_time };
    proof {
        assert(input_views(body.inputs@).len() == input_count);
        assert(output_views(body.outputs@).len() == output_count);
        assert(stripped@ =~= stripped_bytes(body@));
    }
    Ok((body, stripped))
}

/// A decoded transaction: its parts, and as its id the double SHA-256 of
/// their stripped serialisation.
pub open spec fn with_id(body: BodyView) -> TransactionView {
    TransactionView {
        transaction_id: sha256(sha256(stripped_bytes(body))),
        version: body.version,
        inputs: body.inputs,
        outputs: body.outputs,
        lock_time: body.lock_time,
    }
}

/// The text is hexadecimal and its bytes end inside the amount of an output.
pub open spec fn ends_in_amount(text: Seq<char>) -> bool {
    match hex_decoded(vstd::utf8::encode_utf8(text)) {
        Ok(raw) => parse_transaction(raw) is CutInAmount,
        Err(_) => false,
    }
}

/// Whether the bytes of a hexadecimal transaction text end inside the amount
/// of an output, the input on which decoding is a fatal error.
pub fn transaction_ends_in_amount(transaction_hex: &str) -> (cut: bool)
    ensures
        cut == ends_in_amount(transaction_hex@),
{
    match decode_hex(transaction_hex) {
        Ok(raw) => match parse_transaction_body(raw.as_slice()) {
            Err(DecodeError::AmountCutShort) => true,
            _ => false,
        },
        Err(_) => false,
    }
}

/// Decodes a raw transaction from its hexadecimal text: the text's bytes are
/// decoded as hexadecimal, the transaction is read from them as
/// `parse_transaction` says, and its id is the double SHA-256 of its
/// stripped serialisation.
pub fn decode_transaction(transaction_hex: String) -> (decoded: Result<Transaction, DecodeError>)
    requires
        !ends_in_amount(transaction_hex@),
    ensures
        match hex_decoded(vstd::utf8::encode_utf8(transaction_hex@)) {
            Err(e) => decoded == Err::<Transaction, DecodeError>(DecodeError::InvalidHex(e)),
            Ok(raw) => match parse_transaction(raw) {
                Parsed::Value(body, _) => decoded matches Ok(tx) && tx@ == with_id(body)
                    && tx@.version == body.version && tx@.inputs == body.inputs && tx@.outputs
                    == body.outputs && tx@.lock_time == body.lock_time,
                _ => decoded == Err::<Transaction, DecodeError>(DecodeError::UnexpectedEnd),
            },
        },
{
    let raw = match decode_hex(transaction_hex.as_str()) {
        Ok(raw) => raw,
        Err(e) => {
            return Err(DecodeError::InvalidHex(e));
        },
    };
    let (body, stripped) = parse_transaction_body(raw.as_slice())?;
    let transaction_id = hash_row_transaction(stripped.as_slice())?;
    Ok(
        Transaction {
            transaction_id,
            version: body.version,
            inputs: body.inputs,
            outputs: body.outputs,
            lock_time: body.lock_time,
        },
    )
}

/// Reads the 4-byte little-endian version directly from a raw transaction
/// hex string, which must be hexadecimal and decode to at least four bytes.
pub fn read_version(transaction_hex: &str) -> (version: u32)
    requires
        hex_decoded(transaction_hex.spec_bytes()) matches Ok(raw) && raw.len() >= 4,
    ensures
        hex_decoded(transaction_hex.spec_bytes()) matches Ok(raw) && version == le_value(
            raw.take(4),
        ),
{
    let bytes = decode_hex(transaction_hex).unwrap();
    proof {
        lemma_le_value_bound(bytes@.take(4));
        lemma_byte_ranges();
    }
    let mut slice: &[u8] = bytes.as_slice();
    read_u32(&mut slice).unwrap()
}

} // verus!
