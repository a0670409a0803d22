//! Reading back what was serialised: the decoder's grammar undoes the
//! stripped serialisation of a transaction.

use vstd::prelude::*;

use crate::decode::{
    ends_in_amount, sha256, with_id, parse_bytes, parse_input, parse_inputs, parse_output, parse_outputs, parse_script,
    lemma_parse_inputs_len, lemma_parse_outputs_len, parse_transaction, parse_u32, segwit_marked,
    skip_witness_items, skip_witnesses, Parsed,
};
use crate::hex_text::{hex_decoded, hex_encoded, lemma_hex_roundtrip, HexError};
use crate::transaction::{
    input_bytes, inputs_bytes, output_bytes, outputs_bytes, segwit_bytes, serialisable,
    sized_bytes, stripped_bytes, witness_items_bytes, witnesses_bytes, BodyView, InputView,
    OutputView,
};
use crate::wire::{
    compact_size_bytes, compact_size_parse, lemma_byte_ranges, lemma_compact_size_roundtrip,
    lemma_le_bytes_len, lemma_take_le_roundtrip, le_bytes, le_value, take_le,
};

verus! {

/// A little-endian `u32` reads back.
pub proof fn lemma_u32_roundtrip(v: u32, rest: Seq<u8>)
    ensures
        parse_u32(le_bytes(v as nat, 4) + rest) == Some((v, rest)),
{
    lemma_byte_ranges();
    lemma_take_le_roundtrip(v as nat, 4, rest);
}

/// A length-prefixed byte string reads back.
pub proof fn lemma_script_roundtrip(script: Seq<u8>, rest: Seq<u8>)
    requires
        script.len() <= u64::MAX,
    ensures
        parse_script(sized_bytes(script) + rest) == Some((script, rest)),
{
    let bytes = sized_bytes(script) + rest;
    assert(bytes =~= compact_size_bytes(script.len() as u64) + (script + rest));
    lemma_compact_size_roundtrip(script.len() as u64, script + rest);
    assert((script + rest).take(script.len() as int) =~= script);
    assert((script + rest).skip(script.len() as int) =~= rest);
}

/// One serialised input reads back.
pub proof fn lemma_input_roundtrip(input: InputView, rest: Seq<u8>)
    requires
        input.txid.len() == 32,
        input.script_sig.len() <= u64::MAX,
    ensures
        parse_input(input_bytes(input) + rest) == Some((input, rest)),
{
    lemma_le_bytes_len(input.output_index as nat, 4);
    lemma_le_bytes_len(input.sequence as nat, 4);
    let r3 = le_bytes(input.sequence as nat, 4) + rest;
    let r2 = sized_bytes(input.script_sig) + r3;
    let r1 = le_bytes(input.output_index as nat, 4) + r2;
    let bytes = input_bytes(input) + rest;
    assert(bytes =~= input.txid + r1);
    assert(bytes.take(32) =~= input.txid);
    assert(bytes.skip(32) =~= r1);
    assert(parse_bytes(bytes, 32) == Some((input.txid, r1)));
    lemma_u32_roundtrip(input.output_index, r2);
    lemma_script_roundtrip(input.script_sig, r3);
    lemma_u32_roundtrip(input.sequence, rest);
}

/// One serialised output reads back.
pub proof fn lemma_output_roundtrip(output: OutputView, rest: Seq<u8>)
    requires
        output.script_pubkey.len() <= u64::MAX,
    ensures
        parse_output(output_bytes(output) + rest) == Parsed::Value(output, rest),
{
    lemma_byte_ranges();
    let r1 = sized_bytes(output.script_pubkey) + rest;
    let bytes = output_bytes(output) + rest;
    assert(bytes =~= le_bytes(output.amount as nat, 8) + r1);
    lemma_take_le_roundtrip(output.amount as nat, 8, r1);
    lemma_le_bytes_len(output.amount as nat, 8);
    assert(bytes.take(8) =~= le_bytes(output.amount as nat, 8));
    assert(bytes.skip(8) =~= r1);
    lemma_script_roundtrip(output.script_pubkey, rest);
}

/// The inputs' serialisation, seen from the front.
pub proof fn lemma_inputs_bytes_front(first: InputView, more: Seq<InputView>)
    ensures
        inputs_bytes(seq![first] + more) == input_bytes(first) + inputs_bytes(more),
    decreases more.len(),
{
    let all = seq![first] + more;
    if more.len() == 0 {
        assert(all.drop_last() =~= Seq::<InputView>::empty());
        assert(all.last() == first);
        assert(inputs_bytes(all) == inputs_bytes(all.drop_last()) + input_bytes(first));
        assert(inputs_bytes(all) =~= input_bytes(first) + inputs_bytes(more));
    } else {
        lemma_inputs_bytes_front(first, more.drop_last());
        assert(all.drop_last() =~= seq![first] + more.drop_last());
        assert(all.last() == more.last());
        assert(inputs_bytes(all) == inputs_bytes(all.drop_last()) + input_bytes(all.last()));
        assert(inputs_bytes(more) == inputs_bytes(more.drop_last()) + input_bytes(more.last()));
        let a = input_bytes(first);
        let b = inputs_bytes(more.drop_last());
        let c = input_bytes(more.last());
        assert(inputs_bytes(all.drop_last()) == a + b);
        assert((a + b) + c =~= a + (b + c));
    }
}

/// The outputs' serialisation, seen from the front.
pub proof fn lemma_outputs_bytes_front(first: OutputView, more: Seq<OutputView>)
    ensures
        outputs_bytes(seq![first] + more) == output_bytes(first) + outputs_bytes(more),
    decreases more.len(),
{
    let all = seq![first] + more;
    if more.len() == 0 {
        assert(all.drop_last() =~= Seq::<OutputView>::empty());
        assert(all.last() == first);
        assert(outputs_bytes(all) == outputs_bytes(all.drop_last()) + output_bytes(first));
        assert(outputs_bytes(all) =~= output_bytes(first) + outputs_bytes(more));
    } else {
        lemma_outputs_bytes_front(first, more.drop_last());
        assert(all.drop_last() =~= seq![first] + more.drop_last());
        assert(all.last() == more.last());
        assert(outputs_bytes(all) == outputs_bytes(all.drop_last()) + output_bytes(all.last()));
        assert(outputs_bytes(more) == outputs_bytes(more.drop_last()) + output_bytes(more.last()));
        let a = output_bytes(first);
        let b = outputs_bytes(more.drop_last());
        let c = output_bytes(more.last());
        assert(outputs_bytes(all.drop_last()) == a + b);
        assert((a + b) + c =~= a + (b + c));
    }
}

/// Serialised inputs read back, as many as there are.
pub proof fn lemma_inputs_roundtrip(inputs: Seq<InputView>, rest: Seq<u8>)
    requires
        forall|k: int|
            0 <= k < inputs.len() ==> (#[trigger] inputs[k]).txid.len() == 32
                && inputs[k].script_sig.len() <= u64::MAX,
    ensures
        parse_inputs(inputs_bytes(inputs) + rest, inputs.len()) == Some((inputs, rest)),
    decreases inputs.len(),
{
    if inputs.len() == 0 {
        assert(inputs_bytes(inputs) + rest =~= rest);
        assert(inputs =~= Seq::<InputView>::empty());
    } else {
        let first = inputs[0];
        let more = inputs.drop_first();
        assert(inputs =~= seq![first] + more);
        lemma_inputs_bytes_front(first, more);
        assert(inputs_bytes(inputs) + rest =~= input_bytes(first) + (inputs_bytes(more) + rest));
        lemma_input_roundtrip(first, inputs_bytes(more) + rest);
        assert forall|k: int| 0 <= k < more.len() implies (#[trigger] more[k]).txid.len() == 32
            && more[k].script_sig.len() <= u64::MAX by {
            assert(more[k] == inputs[k + 1]);
        }
        lemma_inputs_roundtrip(more, rest);
    }
}

/// Serialised outputs read back, as many as there are.
pub proof fn lemma_outputs_roundtrip(outputs: Seq<OutputView>, rest: Seq<u8>)
    requires
        forall|k: int|
            0 <= k < outputs.len() ==> (#[trigger] outputs[k]).script_pubkey.len() <= u64::MAX,
    ensures
        parse_outputs(outputs_bytes(outputs) + rest, outputs.len()) == Parsed::Value(outputs, rest),
    decreases outputs.len(),
{
    if outputs.len() == 0 {
        assert(outputs_bytes(outputs) + rest =~= rest);
        assert(outputs =~= Seq::<OutputView>::empty());
    } else {
        let first = outputs[0];
        let more = outputs.drop_first();
        assert(outputs =~= seq![first] + more);
        lemma_outputs_bytes_front(first, more);
        assert(outputs_bytes(outputs) + rest =~= output_bytes(first) + (outputs_bytes(more)
            + rest));
        lemma_output_roundtrip(first, outputs_bytes(more) + rest);
        assert forall|k: int| 0 <= k < more.len() implies (#[trigger] more[k]).script_pubkey.len()
            <= u64::MAX by {
            assert(more[k] == outputs[k + 1]);
        }
        lemma_outputs_roundtrip(more, rest);
    }
}

/// How the grammar reads a transaction without SegWit marker, given how it
/// reads each part.
proof fn lemma_legacy_parse_steps(
    raw: Seq<u8>,
    body: BodyView,
    r0: Seq<u8>,
    r2: Seq<u8>,
    r3: Seq<u8>,
    r4: Seq<u8>,
    r6: Seq<u8>,
    tail: Seq<u8>,
)
    requires
        parse_u32(raw) == Some((body.version, r0)),
        !segwit_marked(r0),
        compact_size_parse(r0) == Some((body.inputs.len() as u64, r2)),
        body.inputs.len() <= u64::MAX,
        body.outputs.len() <= u64::MAX,
        parse_inputs(r2, body.inputs.len()) == Some((body.inputs, r3)),
        compact_size_parse(r3) == Some((body.outputs.len() as u64, r4)),
        parse_outputs(r4, body.outputs.len()) == Parsed::Value(body.outputs, r6),
        parse_u32(r6) == Some((body.lock_time, tail)),
    ensures
        parse_transaction(raw) == Parsed::Value(body, tail),
{
}

/// The stripped serialisation, part after part.
proof fn lemma_stripped_shape(body: BodyView, tail: Seq<u8>)
    ensures
        stripped_bytes(body) + tail == le_bytes(body.version as nat, 4) + (compact_size_bytes(
            body.inputs.len() as u64,
        ) + (inputs_bytes(body.inputs) + (compact_size_bytes(body.outputs.len() as u64) + (
        outputs_bytes(body.outputs) + (le_bytes(body.lock_time as nat, 4) + tail))))),
{
    let a = le_bytes(body.version as nat, 4);
    let b = compact_size_bytes(body.inputs.len() as u64);
    let c = inputs_bytes(body.inputs);
    let d = compact_size_bytes(body.outputs.len() as u64);
    let e = outputs_bytes(body.outputs);
    let f = le_bytes(body.lock_time as nat, 4);
    assert(stripped_bytes(body) + tail =~= a + (b + (c + (d + (e + (f + tail))))));
}

/// Counts that do not read as a SegWit marker and flag: a non-zero input
/// count starts with a non-zero byte, and a zero input count with no inputs
/// after it is followed by a zero output count.
proof fn lemma_counts_not_segwit(n_in: u64, inputs: Seq<u8>, n_out: u64, rest: Seq<u8>)
    requires
        n_in > 0 || n_out == 0,
        n_in == 0 ==> inputs.len() == 0,
    ensures
        !segwit_marked(compact_size_bytes(n_in) + (inputs + (compact_size_bytes(n_out) + rest))),
{
    lemma_le_bytes_len(n_in as nat, 2);
    lemma_le_bytes_len(n_out as nat, 2);
    let r0 = compact_size_bytes(n_in) + (inputs + (compact_size_bytes(n_out) + rest));
    if n_in == 0 {
        assert(r0[0] == 0);
        assert(r0[1] == compact_size_bytes(n_out)[0]);
    } else {
        assert(r0[0] == compact_size_bytes(n_in)[0]);
    }
}

/// Decoding the stripped serialisation of a transaction, followed by any
/// bytes, gives back the transaction and leaves those bytes. It fails for a
/// transaction with no inputs but some outputs: its zero input count and
/// non-zero output count read as the SegWit marker and flag.
pub proof fn lemma_stripped_bytes_decode(body: BodyView, tail: Seq<u8>)
    requires
        serialisable(body),
        body.inputs.len() > 0 || body.outputs.len() == 0,
    ensures
        parse_transaction(stripped_bytes(body) + tail) == Parsed::Value(body, tail),
{
    let n_in = body.inputs.len() as u64;
    let n_out = body.outputs.len() as u64;
    let r6 = le_bytes(body.lock_time as nat, 4) + tail;
    let r4 = outputs_bytes(body.outputs) + r6;
    let r3 = compact_size_bytes(n_out) + r4;
    let r2 = inputs_bytes(body.inputs) + r3;
    let r0 = compact_size_bytes(n_in) + r2;
    let bytes = stripped_bytes(body) + tail;
    lemma_stripped_shape(body, tail);
    lemma_u32_roundtrip(body.version, r0);
    if n_in == 0 {
        assert(inputs_bytes(body.inputs).len() == 0);
    }
    lemma_counts_not_segwit(n_in, inputs_bytes(body.inputs), n_out, r4);
    lemma_compact_size_roundtrip(n_in, r2);
    lemma_inputs_roundtrip(body.inputs, r3);
    lemma_compact_size_roundtrip(n_out, r4);
    lemma_outputs_roundtrip(body.outputs, r6);
    lemma_u32_roundtrip(body.lock_time, tail);
    lemma_legacy_parse_steps(bytes, body, r0, r2, r3, r4, r6, tail);
}

/// Decoding the hexadecimal text of a transaction's stripped serialisation
/// gives the transaction back: the text is accepted and its bytes parse to
/// the transaction with nothing left over, and the decoded transaction has
/// the same version, the same inputs in the same order, the same outputs in
/// the same order and the same lock time, with the double SHA-256 of those
/// bytes as its id. As for `lemma_stripped_bytes_decode`, a transaction with
/// no inputs but some outputs is left out.
pub proof fn lemma_decode_gives_back_transaction(body: BodyView)
    requires
        serialisable(body),
        body.inputs.len() > 0 || body.outputs.len() == 0,
    ensures
        ({
            let raw = stripped_bytes(body);
            let text = hex_encoded(raw);
            &&& hex_decoded(vstd::utf8::encode_utf8(text)) == Ok::<Seq<u8>, HexError>(raw)
            &&& !ends_in_amount(text)
            &&& parse_transaction(raw) == Parsed::Value(body, Seq::<u8>::empty())
            &&& with_id(body).version == body.version
            &&& with_id(body).inputs == body.inputs
            &&& with_id(body).outputs == body.outputs
            &&& with_id(body).lock_time == body.lock_time
            &&& with_id(body).transaction_id == sha256(sha256(raw))
        }),
{
    let raw = stripped_bytes(body);
    lemma_hex_roundtrip(raw);
    lemma_stripped_bytes_decode(body, Seq::<u8>::empty());
    assert(raw + Seq::<u8>::empty() =~= raw);
}

/// Every length in a list of witness stacks fits in a `u64`.
pub open spec fn witnesses_fit(stacks: Seq<Seq<Seq<u8>>>) -> bool {
    &&& forall|k: int| 0 <= k < stacks.len() ==> (#[trigger] stacks[k]).len() <= u64::MAX
    &&& forall|k: int, j: int|
        0 <= k < stacks.len() && 0 <= j < stacks[k].len() ==> (#[trigger] stacks[k][j]).len()
            <= u64::MAX
}

/// Witness items are read past.
proof fn lemma_witness_items_skip(items: Seq<Seq<u8>>, rest: Seq<u8>)
    requires
        forall|j: int| 0 <= j < items.len() ==> (#[trigger] items[j]).len() <= u64::MAX,
    ensures
        skip_witness_items(witness_items_bytes(items) + rest, items.len()) == Some(rest),
    decreases items.len(),
{
    if items.len() == 0 {
        assert(witness_items_bytes(items) + rest =~= rest);
    } else {
        let more = items.drop_first();
        let after = witness_items_bytes(more) + rest;
        assert(witness_items_bytes(items) + rest =~= sized_bytes(items[0]) + after);
        lemma_script_roundtrip(items[0], after);
        assert forall|j: int| 0 <= j < more.len() implies (#[trigger] more[j]).len() <= u64::MAX by {
            assert(more[j] == items[j + 1]);
        }
        lemma_witness_items_skip(more, rest);
    }
}

/// Witness stacks are read past, one per input.
proof fn lemma_witnesses_skip(stacks: Seq<Seq<Seq<u8>>>, rest: Seq<u8>)
    requires
        witnesses_fit(stacks),
    ensures
        skip_witnesses(witnesses_bytes(stacks) + rest, stacks.len()) == Some(rest),
    decreases stacks.len(),
{
    if stacks.len() == 0 {
        assert(witnesses_bytes(stacks) + rest =~= rest);
    } else {
        let first = stacks[0];
        let more = stacks.drop_first();
        let after = witnesses_bytes(more) + rest;
        let items_after = witness_items_bytes(first) + after;
        assert(witnesses_bytes(stacks) + rest =~= compact_size_bytes(first.len() as u64)
            + items_after);
        lemma_compact_size_roundtrip(first.len() as u64, items_after);
        assert forall|j: int| 0 <= j < first.len() implies (#[trigger] first[j]).len()
            <= u64::MAX by {
            assert(stacks[0][j].len() <= u64::MAX);
        }
        lemma_witness_items_skip(first, after);
        assert(witnesses_fit(more)) by {
            assert forall|k: int| 0 <= k < more.len() implies (#[trigger] more[k]).len()
                <= u64::MAX by {
                assert(more[k] == stacks[k + 1]);
            }
            assert forall|k: int, j: int|
                0 <= k < more.len() && 0 <= j < more[k].len() implies (#[trigger] more[k][j]).len()
                <= u64::MAX by {
                assert(more[k] == stacks[k + 1]);
                assert(stacks[k + 1][j].len() <= u64::MAX);
            }
        }
        lemma_witnesses_skip(more, rest);
    }
}

/// The SegWit serialisation, part after part.
proof fn lemma_segwit_shape(body: BodyView, stacks: Seq<Seq<Seq<u8>>>, tail: Seq<u8>)
    ensures
        segwit_bytes(body, stacks) + tail == le_bytes(body.version as nat, 4) + (seq![0u8, 1u8] + (
        compact_size_bytes(body.inputs.len() as u64) + (inputs_bytes(body.inputs) + (
        compact_size_bytes(body.outputs.len() as u64) + (outputs_bytes(body.outputs) + (
        witnesses_bytes(stacks) + (le_bytes(body.lock_time as nat, 4) + tail))))))),
{
    let a = le_bytes(body.version as nat, 4);
    let m = seq![0u8, 1u8];
    let b = compact_size_bytes(body.inputs.len() as u64);
    let c = inputs_bytes(body.inputs);
    let d = compact_size_bytes(body.outputs.len() as u64);
    let e = outputs_bytes(body.outputs);
    let w = witnesses_bytes(stacks);
    let f = le_bytes(body.lock_time as nat, 4);
    assert(segwit_bytes(body, stacks) + tail =~= a + (m + (b + (c + (d + (e + (w + (f
        + tail))))))));
}

/// How the grammar reads a transaction with SegWit marker and flag, given
/// how it reads each part.
proof fn lemma_segwit_parse_steps(
    raw: Seq<u8>,
    body: BodyView,
    r0: Seq<u8>,
    r2: Seq<u8>,
    r3: Seq<u8>,
    r4: Seq<u8>,
    r5: Seq<u8>,
    r6: Seq<u8>,
    tail: Seq<u8>,
)
    requires
        parse_u32(raw) == Some((body.version, r0)),
        segwit_marked(r0),
        compact_size_parse(r0.skip(2)) == Some((body.inputs.len() as u64, r2)),
        body.inputs.len() <= u64::MAX,
        body.outputs.len() <= u64::MAX,
        parse_inputs(r2, body.inputs.len()) == Some((body.inputs, r3)),
        compact_size_parse(r3) == Some((body.outputs.len() as u64, r4)),
        parse_outputs(r4, body.outputs.len()) == Parsed::Value(body.outputs, r5),
        skip_witnesses(r5, body.inputs.len()) == Some(r6),
        parse_u32(r6) == Some((body.lock_time, tail)),
    ensures
        parse_transaction(raw) == Parsed::Value(body, tail),
{
}

/// Decoding the SegWit serialisation of a transaction, with one witness
/// stack per input and followed by any bytes, gives back the transaction
/// and leaves those bytes: marker, flag and witnesses are read past, so the
/// transaction id is the one of its stripped serialisation.
pub proof fn lemma_segwit_bytes_decode(body: BodyView, stacks: Seq<Seq<Seq<u8>>>, tail: Seq<u8>)
    requires
        serialisable(body),
        stacks.len() == body.inputs.len(),
        witnesses_fit(stacks),
    ensures
        parse_transaction(segwit_bytes(body, stacks) + tail) == Parsed::Value(body, tail),
{
    let n_in = body.inputs.len() as u64;
    let n_out = body.outputs.len() as u64;
    let r6 = le_bytes(body.lock_time as nat, 4) + tail;
    let r5 = witnesses_bytes(stacks) + r6;
    let r4 = outputs_bytes(body.outputs) + r5;
    let r3 = compact_size_bytes(n_out) + r4;
    let r2 = inputs_bytes(body.inputs) + r3;
    let r1 = compact_size_bytes(n_in) + r2;
    let r0 = seq![0u8, 1u8] + r1;
    let bytes = segwit_bytes(body, stacks) + tail;
    lemma_segwit_shape(body, stacks, tail);
    lemma_u32_roundtrip(body.version, r0);
    assert(r0.skip(2) =~= r1);
    lemma_compact_size_roundtrip(n_in, r2);
    lemma_inputs_roundtrip(body.inputs, r3);
    lemma_compact_size_roundtrip(n_out, r4);
    lemma_outputs_roundtrip(body.outputs, r5);
    lemma_witnesses_skip(stacks, r6);
    lemma_u32_roundtrip(body.lock_time, tail);
    lemma_segwit_parse_steps(bytes, body, r0, r2, r3, r4, r5, r6, tail);
}

/// A little-endian read looks only at the bytes it takes: the first `n` of
/// the same bytes, followed by anything, read the same way.
proof fn lemma_take_le_prefix(s: Seq<u8>, width: nat, n: int, y: Seq<u8>)
    requires
        s.len() >= width,
    ensures
        width <= n <= s.len() ==> take_le(s.take(n) + y, width) == Some(
            (le_value(s.take(width as int)), s.skip(width as int).take(n - width) + y),
        ),
{
    if width <= n <= s.len() {
        let t = s.take(n) + y;
        assert(t.take(width as int) =~= s.take(width as int));
        assert(t.skip(width as int) =~= s.skip(width as int).take(n - width) + y);
    }
}

/// Taking a fixed number of bytes looks only at them.
proof fn lemma_bytes_prefix(s: Seq<u8>, count: nat, n: int, y: Seq<u8>)
    requires
        s.len() >= count,
    ensures
        count <= n <= s.len() ==> parse_bytes(s.take(n) + y, count) == Some(
            (s.take(count as int), s.skip(count as int).take(n - count) + y),
        ),
{
    if count <= n <= s.len() {
        let t = s.take(n) + y;
        assert(t.take(count as int) =~= s.take(count as int));
        assert(t.skip(count as int) =~= s.skip(count as int).take(n - count) + y);
    }
}

/// A CompactSize read leaves a suffix and looks only at the bytes it takes.
proof fn lemma_compact_size_prefix(s: Seq<u8>, n: int, y: Seq<u8>)
    requires
        compact_size_parse(s) is Some,
    ensures
        ({
            let (v, r) = compact_size_parse(s)->0;
            let c = s.len() - r.len();
            &&& 1 <= c <= s.len()
            &&& r == s.skip(c)
            &&& c <= n <= s.len() ==> compact_size_parse(s.take(n) + y) == Some((v, r.take(n - c) + y))
        }),
{
    let rest = s.drop_first();
    assert(rest =~= s.skip(1));
    if s[0] > 0xfc {
        let width: nat = if s[0] == 0xfd {
            2
        } else if s[0] == 0xfe {
            4
        } else {
            8
        };
        lemma_take_le_prefix(rest, width, n - 1, y);
        assert(rest.skip(width as int) =~= s.skip(1 + width as int));
    }
    if 1 <= n <= s.len() {
        let t = s.take(n) + y;
        assert(t[0] == s[0]);
        assert(t.drop_first() =~= rest.take(n - 1) + y);
    }
}

/// A little-endian `u32` read leaves a suffix and looks only at its bytes.
proof fn lemma_u32_prefix(s: Seq<u8>, n: int, y: Seq<u8>)
    requires
        parse_u32(s) is Some,
    ensures
        ({
            let (v, r) = parse_u32(s)->0;
            let c = s.len() - r.len();
            &&& 0 <= c <= s.len()
            &&& r == s.skip(c)
            &&& c <= n <= s.len() ==> parse_u32(s.take(n) + y) == Some((v, r.take(n - c) + y))
        }),
{
    lemma_take_le_prefix(s, 4, n, y);
}

/// A length-prefixed byte string read leaves a suffix and looks only at its
/// bytes.
proof fn lemma_script_prefix(s: Seq<u8>, n: int, y: Seq<u8>)
    requires
        parse_script(s) is Some,
    ensures
        ({
            let (v, r) = parse_script(s)->0;
            let c = s.len() - r.len();
            &&& 0 <= c <= s.len()
            &&& r == s.skip(c)
            &&& c <= n <= s.len() ==> parse_script(s.take(n) + y) == Some((v, r.take(n - c) + y))
        }),
{
    let (len, r1) = compact_size_parse(s)->0;
    let c1 = s.len() - r1.len();
    lemma_compact_size_prefix(s, n, y);
    lemma_bytes_prefix(r1, len as nat, n - c1, y);
    assert(r1.skip(len as int) =~= s.skip(c1 + len));
}

/// An input read leaves a suffix and looks only at its bytes.
proof fn lemma_input_prefix(s: Seq<u8>, n: int, y: Seq<u8>)
    requires
        parse_input(s) is Some,
    ensures
        ({
            let (v, r) = parse_input(s)->0;
            let c = s.len() - r.len();
            &&& 0 <= c <= s.len()
            &&& r == s.skip(c)
            &&& c <= n <= s.len() ==> parse_input(s.take(n) + y) == Some((v, r.take(n - c) + y))
        }),
{
    let r1 = s.skip(32);
    lemma_bytes_prefix(s, 32, n, y);
    lemma_u32_prefix(r1, n - 32, y);
    let r2 = (parse_u32(r1)->0).1;
    let c2 = r1.len() - r2.len();
    lemma_script_prefix(r2, n - 32 - c2, y);
    let r3 = (parse_script(r2)->0).1;
    let c3 = r2.len() - r3.len();
    lemma_u32_prefix(r3, n - 32 - c2 - c3, y);
    let r4 = (parse_u32(r3)->0).1;
    let c4 = r3.len() - r4.len();
    assert(r4 =~= s.skip(32 + c2 + c3 + c4));
}

/// Reading inputs leaves a suffix and looks only at their bytes.
proof fn lemma_inputs_prefix(s: Seq<u8>, count: nat, n: int, y: Seq<u8>)
    requires
        parse_inputs(s, count) is Some,
    ensures
        ({
            let (v, r) = parse_inputs(s, count)->0;
            let c = s.len() - r.len();
            &&& 0 <= c <= s.len()
            &&& r == s.skip(c)
            &&& c <= n <= s.len() ==> parse_inputs(s.take(n) + y, count) == Some(
                (v, r.take(n - c) + y),
            )
        }),
    decreases count,
{
    if count == 0 {
        assert(s.skip(0) =~= s);
        if 0 <= n <= s.len() {
            assert(s.take(n) =~= s.take(n - 0));
        }
    } else {
        lemma_input_prefix(s, n, y);
        let (first, r1) = parse_input(s)->0;
        let c1 = s.len() - r1.len();
        lemma_inputs_prefix(r1, (count - 1) as nat, n - c1, y);
        let (more, r) = parse_inputs(r1, (count - 1) as nat)->0;
        assert(parse_inputs(s, count) == Some((seq![first] + more, r)));
        assert(r1 == s.skip(c1));
        assert(r == r1.skip(r1.len() - r.len()));
        assert(r =~= s.skip(c1 + r1.len() - r.len()));
        if s.len() - r.len() <= n <= s.len() {
            assert(parse_input(s.take(n) + y) == Some((first, r1.take(n - c1) + y)));
            assert(parse_inputs(r1.take(n - c1) + y, (count - 1) as nat) == Some(
                (more, r.take(n - c1 - (r1.len() - r.len())) + y),
            ));
        }
    }
}

/// An output read leaves a suffix and looks only at its bytes.
proof fn lemma_output_prefix(s: Seq<u8>, n: int, y: Seq<u8>)
    requires
        parse_output(s) is Value,
    ensures
        ({
            let v = parse_output(s)->0;
            let r = parse_output(s)->1;
            let c = s.len() - r.len();
            &&& 0 <= c <= s.len()
            &&& r == s.skip(c)
            &&& c <= n <= s.len() ==> parse_output(s.take(n) + y) == Parsed::Value(
                v,
                r.take(n - c) + y,
            )
        }),
{
    let r1 = s.skip(8);
    lemma_script_prefix(r1, n - 8, y);
    let r = (parse_script(r1)->0).1;
    assert(r =~= s.skip(8 + r1.len() - r.len()));
    if 8 + r1.len() - r.len() <= n <= s.len() {
        let t = s.take(n) + y;
        assert(t.take(8) =~= s.take(8));
        assert(t.skip(8) =~= r1.take(n - 8) + y);
    }
}

/// Reading outputs leaves a suffix and looks only at their bytes.
proof fn lemma_outputs_prefix(s: Seq<u8>, count: nat, n: int, y: Seq<u8>)
    requires
        parse_outputs(s, count) is Value,
    ensures
        ({
            let v = parse_outputs(s, count)->0;
            let r = parse_outputs(s, count)->1;
            let c = s.len() - r.len();
            &&& 0 <= c <= s.len()
            &&& r == s.skip(c)
            &&& c <= n <= s.len() ==> parse_outputs(s.take(n) + y, count) == Parsed::Value(
                v,
                r.take(n - c) + y,
            )
        }),
    decreases count,
{
    if count == 0 {
        assert(s.skip(0) =~= s);
        if 0 <= n <= s.len() {
            assert(s.take(n) =~= s.take(n - 0));
        }
    } else {
        lemma_output_prefix(s, n, y);
        let first = parse_output(s)->0;
        let r1 = parse_output(s)->1;
        let c1 = s.len() - r1.len();
        lemma_outputs_prefix(r1, (count - 1) as nat, n - c1, y);
        let more = parse_outputs(r1, (count - 1) as nat)->0;
        let r = parse_outputs(r1, (count - 1) as nat)->1;
        assert(parse_outputs(s, count) == Parsed::Value(seq![first] + more, r));
        assert(r1 == s.skip(c1));
        assert(r == r1.skip(r1.len() - r.len()));
        assert(r =~= s.skip(c1 + r1.len() - r.len()));
        if s.len() - r.len() <= n <= s.len() {
            assert(parse_output(s.take(n) + y) == Parsed::Value(first, r1.take(n - c1) + y));
            assert(parse_outputs(r1.take(n - c1) + y, (count - 1) as nat) == Parsed::Value(
                more,
                r.take(n - c1 - (r1.len() - r.len())) + y,
            ));
        }
    }
}

/// The bytes of a raw SegWit transaction with its marker, flag and witness
/// stacks taken out: the version, then the counts, inputs and outputs as
/// they stand (every CompactSize keeps its width), then what follows the
/// witnesses. Bytes that the grammar does not read that far are left as
/// they are.
pub open spec fn without_witness(raw: Seq<u8>) -> Seq<u8> {
    let r1 = raw.skip(6);
    match compact_size_parse(r1) {
        None => raw,
        Some((input_count, r2)) => match parse_inputs(r2, input_count as nat) {
            None => raw,
            Some((_, r3)) => match compact_size_parse(r3) {
                None => raw,
                Some((output_count, r4)) => match parse_outputs(r4, output_count as nat) {
                    Parsed::Value(_, r5) => match skip_witnesses(r5, input_count as nat) {
                        Some(r6) => raw.take(4) + r1.take(r1.len() - r5.len()) + r6,
                        None => raw,
                    },
                    _ => raw,
                },
            },
        },
    }
}

/// What the grammar reads, part by part, of a raw transaction that it reads
/// in full and that carries the SegWit marker.
proof fn lemma_segwit_reads(raw: Seq<u8>)
    requires
        raw.len() >= 4,
        segwit_marked(raw.skip(4)),
        parse_transaction(raw) is Value,
    ensures
        parse_u32(raw) == Some(((parse_u32(raw)->0).0, raw.skip(4))),
        compact_size_parse(raw.skip(6)) is Some,
        ({
            let (input_count, r2) = compact_size_parse(raw.skip(6))->0;
            &&& parse_inputs(r2, input_count as nat) is Some
            &&& ({
                let (inputs, r3) = parse_inputs(r2, input_count as nat)->0;
                &&& compact_size_parse(r3) is Some
                &&& ({
                    let (output_count, r4) = compact_size_parse(r3)->0;
                    &&& parse_outputs(r4, output_count as nat) is Value
                    &&& ({
                        let outputs = parse_outputs(r4, output_count as nat)->0;
                        let r5 = parse_outputs(r4, output_count as nat)->1;
                        &&& skip_witnesses(r5, input_count as nat) is Some
                        &&& ({
                            let r6 = skip_witnesses(r5, input_count as nat)->0;
                            &&& parse_u32(r6) is Some
                            &&& parse_transaction(raw) == Parsed::Value(
                                BodyView {
                                    version: (parse_u32(raw)->0).0,
                                    inputs,
                                    outputs,
                                    lock_time: (parse_u32(r6)->0).0,
                                },
                                (parse_u32(r6)->0).1,
                            )
                        })
                    })
                })
            })
        }),
{
    assert(raw.skip(4).skip(2) =~= raw.skip(6));
}

/// Witness data changes nothing of a decoded transaction: a raw SegWit
/// transaction (marker `0x00` and any non-zero flag) with at least one input
/// reads as the same transaction, with the same bytes left over, once its
/// marker, flag and witness stacks are taken out, whatever the widths of its
/// CompactSizes. So `decode_transaction` gives both the same result, the
/// transaction id included.
pub proof fn lemma_witness_data_is_ignored(raw: Seq<u8>)
    requires
        raw.len() >= 4,
        segwit_marked(raw.skip(4)),
        parse_transaction(raw) matches Parsed::Value(body, _) && body.inputs.len() > 0,
    ensures
        parse_transaction(without_witness(raw)) == parse_transaction(raw),
{
    lemma_segwit_reads(raw);
    let r1 = raw.skip(6);
    let version = (parse_u32(raw)->0).0;
    let (input_count, r2) = compact_size_parse(r1)->0;
    let (inputs, r3) = parse_inputs(r2, input_count as nat)->0;
    let (output_count, r4) = compact_size_parse(r3)->0;
    let outputs = parse_outputs(r4, output_count as nat)->0;
    let r5 = parse_outputs(r4, output_count as nat)->1;
    let r6 = skip_witnesses(r5, input_count as nat)->0;
    let (lock_time, tail) = parse_u32(r6)->0;
    let body = BodyView { version, inputs, outputs, lock_time };
    assert(parse_transaction(raw) == Parsed::Value(body, tail));
    lemma_parse_inputs_len(r2, input_count as nat);
    lemma_parse_outputs_len(r4, output_count as nat);
    let k = r1.len() - r5.len();
    let mid = r1.take(k);
    let stripped = raw.take(4) + mid + r6;
    assert(without_witness(raw) == stripped);
    // Each read of the stripped bytes finds the same part, followed by the
    // rest of the stripped bytes.
    let c2 = r1.len() - r2.len();
    let c3 = r1.len() - r3.len();
    let c4 = r1.len() - r4.len();
    lemma_compact_size_prefix(r1, k, r6);
    lemma_inputs_prefix(r2, input_count as nat, k - c2, r6);
    lemma_compact_size_prefix(r3, k - c3, r6);
    lemma_outputs_prefix(r4, output_count as nat, k - c4, r6);
    assert(r5.take(0) + r6 =~= r6);
    let s0 = mid + r6;
    assert(parse_u32(stripped) == Some((version, s0))) by {
        lemma_take_le_prefix(raw, 4, 4, s0);
        assert(raw.take(4) + s0 =~= stripped);
        assert(raw.skip(4).take(0) + s0 =~= s0);
    }
    // A non-zero input count starts with a non-zero byte: no marker.
    assert(!segwit_marked(s0)) by {
        assert(s0[0] == r1[0]);
        if r1[0] == 0 {
            assert(input_count == 0);
        }
    }
    lemma_legacy_parse_steps(
        stripped,
        body,
        s0,
        r2.take(k - c2) + r6,
        r3.take(k - c3) + r6,
        r4.take(k - c4) + r6,
        r6,
        tail,
    );
}

} // verus!
