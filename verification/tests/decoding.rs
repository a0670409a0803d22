use rfb_labs::{
    decode_hex, decode_transaction, encode_hex, hash_row_transaction, parse_transaction_body,
    push_compact_size, read_amount, read_compact_size, read_script_size, read_txid, read_u32,
    read_u64, read_version, read_version_byte, transaction_ends_in_amount, DecodeError, HexError,
};
use sha2::{Digest, Sha256};

// The first bitcoin payment (block 170): one input, two outputs.
const BLOCK_170_TX: &str = "0100000001c997a5e56e104102fa209c6a852dd90660a20b2d9c352423edce25857fcd3704000000004847304402204e45e16932b8af514961a1d3a1a25fdf3f4f7732e9d624c6c61548ab5fb8cd410220181522ec8eca07de4860a4acdd12909d831cc56cbbac4622082221a8768d1d0901ffffffff0200ca9a3b00000000434104ae1a62fe09c5f51b13905f07f06b99a2f7159b2225f374cd378d71302fa28414e7aab37397f554a7df5f142c21c1b7303b8a0626f1baded5c72a704f7e6cd84cac00286bee0000000043410411db93e1dcdb8a016b49840f8c53bc1eb68a382e97b1482ecad7b148a6909a5cb2e0eaddfb84ccf9744464f82e160bfa9b8b64f9d4c03f999b8643f656b412a3ac00000000";

fn double_sha256(bytes: &[u8]) -> Vec<u8> {
    Sha256::digest(Sha256::digest(bytes)).to_vec()
}

fn reversed_hex(bytes: &[u8]) -> String {
    let mut reversed = bytes.to_vec();
    reversed.reverse();
    encode_hex(&reversed)
}

// A SegWit transaction: version 2, marker and flag, one input, one output,
// one witness stack of two items, lock time 17.
fn segwit_tx_bytes() -> (Vec<u8>, Vec<u8>) {
    let mut stripped = Vec::new();
    stripped.extend_from_slice(&[2, 0, 0, 0]);
    stripped.push(1);
    stripped.extend_from_slice(&[7u8; 32]);
    stripped.extend_from_slice(&[1, 0, 0, 0]);
    stripped.push(0);
    stripped.extend_from_slice(&[0xff, 0xff, 0xff, 0xff]);
    stripped.push(1);
    stripped.extend_from_slice(&1000u64.to_le_bytes());
    stripped.extend_from_slice(&[1, 0x51]);
    let lock = [17, 0, 0, 0];

    let mut raw = Vec::new();
    raw.extend_from_slice(&stripped[..4]);
    raw.extend_from_slice(&[0, 1]);
    raw.extend_from_slice(&stripped[4..]);
    raw.extend_from_slice(&[2, 1, 0xaa, 0]);
    raw.extend_from_slice(&lock);
    stripped.extend_from_slice(&lock);
    (raw, stripped)
}

#[test]
fn the_block_170_payment_decodes() {
    let tx = decode_transaction(BLOCK_170_TX.to_string()).unwrap();
    assert_eq!(tx.version, 1);
    assert_eq!(tx.lock_time, 0);
    assert_eq!(tx.inputs.len(), 1);
    assert_eq!(tx.inputs[0].output_index, 0);
    assert_eq!(tx.inputs[0].sequence, 0xffff_ffff);
    assert_eq!(tx.inputs[0].script_sig.len(), 72);
    assert_eq!(
        reversed_hex(tx.inputs[0].txid.as_bytes()),
        "0437cd7f8525ceed2324359c2d0ba26006d92d856a9c20fa0241106ee5a597c9"
    );
    assert_eq!(tx.outputs.len(), 2);
    assert_eq!(tx.outputs[0].amount.to_sat(), 1_000_000_000);
    assert_eq!(tx.outputs[1].amount.to_sat(), 4_000_000_000);
    assert_eq!(tx.outputs[0].script_pubkey.len(), 67);
    assert_eq!(
        reversed_hex(tx.transaction_id.as_bytes()),
        "f4184fc596403b9d638783cf57adfe4c75c605f6356fbc91338530e9831e9e16"
    );
}

#[test]
fn a_legacy_transaction_id_is_the_double_hash_of_its_bytes() {
    let raw = decode_hex(BLOCK_170_TX).unwrap();
    let tx = decode_transaction(BLOCK_170_TX.to_string()).unwrap();
    assert_eq!(tx.transaction_id.as_bytes(), double_sha256(&raw).as_slice());
    let (_, stripped) = parse_transaction_body(&raw).unwrap();
    assert_eq!(stripped, raw);
}

#[test]
fn a_segwit_transaction_skips_its_witnesses() {
    let (raw, stripped) = segwit_tx_bytes();
    let text = encode_hex(&raw);
    let tx = decode_transaction(text).unwrap();
    assert_eq!(tx.version, 2);
    assert_eq!(tx.lock_time, 17);
    assert_eq!(tx.inputs.len(), 1);
    assert_eq!(tx.inputs[0].txid.as_bytes(), &[7u8; 32][..]);
    assert_eq!(tx.inputs[0].output_index, 1);
    assert!(tx.inputs[0].script_sig.is_empty());
    assert_eq!(tx.outputs.len(), 1);
    assert_eq!(tx.outputs[0].amount.to_sat(), 1000);
    assert_eq!(tx.outputs[0].script_pubkey, vec![0x51]);
    assert_eq!(tx.transaction_id.as_bytes(), double_sha256(&stripped).as_slice());
    let (body, rebuilt) = parse_transaction_body(&raw).unwrap();
    assert_eq!(rebuilt, stripped);
    assert_eq!(body.lock_time, 17);
}

#[test]
fn upper_case_hex_decodes_too() {
    let lower = decode_transaction(BLOCK_170_TX.to_string()).unwrap();
    let upper = decode_transaction(BLOCK_170_TX.to_uppercase()).unwrap();
    assert_eq!(lower, upper);
}

#[test]
fn bad_hex_is_reported() {
    assert_eq!(
        decode_transaction("0100000".to_string()),
        Err(DecodeError::InvalidHex(HexError::OddLength))
    );
    assert_eq!(
        decode_transaction("01zz".to_string()),
        Err(DecodeError::InvalidHex(HexError::InvalidHexCharacter { c: 'z', index: 2 }))
    );
}

#[test]
fn truncated_transactions_are_reported() {
    assert_eq!(decode_transaction("010000".to_string()), Err(DecodeError::UnexpectedEnd));
    assert_eq!(decode_transaction("01000000".to_string()), Err(DecodeError::UnexpectedEnd));
    // Cut inside the first input's script.
    let cut = &BLOCK_170_TX[..120];
    assert_eq!(decode_transaction(cut.to_string()), Err(DecodeError::UnexpectedEnd));
    // No lock time.
    let cut = &BLOCK_170_TX[..BLOCK_170_TX.len() - 8];
    assert!(!transaction_ends_in_amount(cut));
    assert_eq!(decode_transaction(cut.to_string()), Err(DecodeError::UnexpectedEnd));
}

#[test]
fn an_input_that_ends_inside_an_amount_is_recognised() {
    // The block 170 payment cut four bytes into its first output's amount.
    let prefix = &BLOCK_170_TX[..BLOCK_170_TX.find("0200ca9a3b").unwrap() + 2 + 8];
    assert!(transaction_ends_in_amount(prefix));
    assert_eq!(
        parse_transaction_body(&decode_hex(prefix).unwrap()),
        Err(DecodeError::AmountCutShort)
    );
    assert!(!transaction_ends_in_amount(BLOCK_170_TX));
    assert!(!transaction_ends_in_amount("zz"));
}

#[test]
fn the_version_is_read_from_hex() {
    assert_eq!(read_version("01000000"), 1);
    assert_eq!(read_version("0200000001"), 2);
    assert_eq!(read_version("ffffffff"), u32::MAX);
    assert_eq!(read_version("78563412"), 0x1234_5678);
}

#[test]
fn little_endian_integers_are_read() {
    let data = [0x01u8, 0x02, 0x03, 0x04, 0x05];
    let mut cursor: &[u8] = &data;
    assert_eq!(read_u32(&mut cursor), Ok(0x0403_0201));
    assert_eq!(cursor, &[0x05][..]);
    assert_eq!(read_u32(&mut cursor), Err(DecodeError::UnexpectedEnd));
    assert_eq!(cursor, &[0x05][..]);

    let data = [0xffu8, 0, 0, 0, 0, 0, 0, 0x80, 9];
    let mut cursor: &[u8] = &data;
    assert_eq!(read_u64(&mut cursor), 0x8000_0000_0000_00ff);
    assert_eq!(cursor, &[9][..]);

    let data = [0x00u8, 0xca, 0x9a, 0x3b, 0, 0, 0, 0];
    let mut cursor: &[u8] = &data;
    assert_eq!(read_amount(&mut cursor).unwrap().to_sat(), 1_000_000_000);
    assert!(cursor.is_empty());

    let data = [2u8, 0, 0, 0];
    let mut cursor: &[u8] = &data;
    assert_eq!(read_version_byte(&mut cursor), Ok(2));
}

#[test]
fn compact_sizes_are_written_in_their_shortest_form() {
    let cases: [(u64, Vec<u8>); 7] = [
        (0, vec![0]),
        (0xfc, vec![0xfc]),
        (0xfd, vec![0xfd, 0xfd, 0x00]),
        (0xffff, vec![0xfd, 0xff, 0xff]),
        (0x1_0000, vec![0xfe, 0x00, 0x00, 0x01, 0x00]),
        (0xffff_ffff, vec![0xfe, 0xff, 0xff, 0xff, 0xff]),
        (0x1_0000_0000, vec![0xff, 0, 0, 0, 0, 1, 0, 0, 0]),
    ];
    for (n, expected) in cases {
        let mut buf = vec![0xaa];
        push_compact_size(&mut buf, n);
        assert_eq!(buf[0], 0xaa);
        assert_eq!(&buf[1..], &expected[..]);
        let mut cursor: &[u8] = &buf[1..];
        assert_eq!(read_compact_size(&mut cursor), Ok(n));
        assert!(cursor.is_empty());
    }
}

#[test]
fn compact_sizes_read_longer_forms_and_report_short_input() {
    let data = [0xfdu8, 0x05, 0x00, 0x07];
    let mut cursor: &[u8] = &data;
    assert_eq!(read_compact_size(&mut cursor), Ok(5));
    assert_eq!(cursor, &[7][..]);

    let data = [0xfeu8, 0x05, 0x00];
    let mut cursor: &[u8] = &data;
    assert_eq!(read_compact_size(&mut cursor), Err(DecodeError::UnexpectedEnd));
    assert_eq!(cursor, &data[..]);

    let mut cursor: &[u8] = &[];
    assert_eq!(read_compact_size(&mut cursor), Err(DecodeError::UnexpectedEnd));
}

#[test]
fn ids_and_scripts_are_read() {
    let mut data = vec![9u8; 32];
    data.push(1);
    let mut cursor: &[u8] = &data;
    let txid = read_txid(&mut cursor).unwrap();
    assert_eq!(txid.as_bytes(), &[9u8; 32][..]);
    assert_eq!(cursor, &[1][..]);
    assert_eq!(read_txid(&mut cursor), Err(DecodeError::UnexpectedEnd));

    let data = [2u8, 0xab, 0xcd, 0xef];
    let mut cursor: &[u8] = &data;
    assert_eq!(read_script_size(&mut cursor), Ok("abcd".to_string()));
    assert_eq!(cursor, &[0xef][..]);
    let data = [3u8, 0xab, 0xcd];
    let mut cursor: &[u8] = &data;
    assert_eq!(read_script_size(&mut cursor), Err(DecodeError::UnexpectedEnd));
    assert_eq!(cursor, &data[..]);
}

#[test]
fn hex_text_round_trips() {
    assert_eq!(decode_hex("0aFf10"), Ok(vec![0x0a, 0xff, 0x10]));
    assert_eq!(decode_hex(""), Ok(vec![]));
    assert_eq!(decode_hex("abc"), Err(HexError::OddLength));
    assert_eq!(
        decode_hex("0g"),
        Err(HexError::InvalidHexCharacter { c: 'g', index: 1 })
    );
    assert_eq!(encode_hex(&[0x00, 0x9f, 0xa0, 0xff]), "009fa0ff");
    let bytes: Vec<u8> = (0..=255).collect();
    assert_eq!(decode_hex(&encode_hex(&bytes)), Ok(bytes));
}

#[test]
fn the_row_hash_is_a_double_sha256() {
    let id = hash_row_transaction(b"abc").unwrap();
    assert_eq!(id.as_bytes(), double_sha256(b"abc").as_slice());
    assert_eq!(id.as_bytes().len(), 32);
    assert_eq!(
        encode_hex(&Sha256::digest(b"abc")),
        "ba7816bf8f01cfea414140de5dae2223b00361a396177a9cb410ff61f20015ad"
    );
    assert_ne!(id.as_bytes(), &Sha256::digest(b"abc")[..]);
}

#[test]
fn witness_data_changes_nothing_whatever_the_flag_and_widths() {
    // Counts and lengths in wider CompactSizes than needed.
    let version = [1u8, 0, 0, 0];
    let mut middle = Vec::new();
    middle.extend_from_slice(&[0xfd, 0x01, 0x00]); // one input
    middle.extend_from_slice(&[3u8; 32]);
    middle.extend_from_slice(&[5, 0, 0, 0]);
    middle.extend_from_slice(&[0xfe, 0x02, 0, 0, 0, 0xab, 0xcd]); // script of two bytes
    middle.extend_from_slice(&[0xfe, 0xff, 0xff, 0xff]);
    middle.extend_from_slice(&[0xff, 1, 0, 0, 0, 0, 0, 0, 0]); // one output
    middle.extend_from_slice(&500u64.to_le_bytes());
    middle.extend_from_slice(&[0xfd, 0x01, 0x00, 0x51]);
    let witnesses = [0xfd, 0x02, 0x00, 0x01, 0xee, 0xfe, 0, 0, 0, 0];
    let lock = [9u8, 0, 0, 0];

    let mut stripped = version.to_vec();
    stripped.extend_from_slice(&middle);
    stripped.extend_from_slice(&lock);
    for flag in [1u8, 2, 0xff] {
        let mut raw = version.to_vec();
        raw.extend_from_slice(&[0, flag]);
        raw.extend_from_slice(&middle);
        raw.extend_from_slice(&witnesses);
        raw.extend_from_slice(&lock);
        let with_witness = decode_transaction(encode_hex(&raw)).unwrap();
        let without = decode_transaction(encode_hex(&stripped)).unwrap();
        assert_eq!(with_witness, without);
        assert_eq!(with_witness.inputs[0].script_sig, vec![0xab, 0xcd]);
        assert_eq!(with_witness.outputs[0].amount.to_sat(), 500);
        assert_eq!(with_witness.lock_time, 9);
        assert_eq!(with_witness.transaction_id.as_bytes(), double_sha256(&{
            let mut canonical = version.to_vec();
            canonical.push(1);
            canonical.extend_from_slice(&[3u8; 32]);
            canonical.extend_from_slice(&[5, 0, 0, 0]);
            canonical.extend_from_slice(&[2, 0xab, 0xcd]);
            canonical.extend_from_slice(&[0xfe, 0xff, 0xff, 0xff]);
            canonical.push(1);
            canonical.extend_from_slice(&500u64.to_le_bytes());
            canonical.extend_from_slice(&[1, 0x51]);
            canonical.extend_from_slice(&lock);
            canonical
        }).as_slice());
    }
}
