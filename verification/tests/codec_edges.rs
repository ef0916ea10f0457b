use btc_codec::BitcoinError;
use btc_codec::BitcoinTransaction;
use btc_codec::CompactSize;
use btc_codec::OutPoint;
use btc_codec::Script;
use btc_codec::TransactionInput;
use btc_codec::Txid;

fn filled_txid(val: u8) -> [u8; 32] {
    let mut txid = [0u8; 32];
    txid[0] = val;
    txid[31] = val;
    txid
}

#[test]
fn test_compact_size_empty_buffer_is_invalid_format() {
    assert_eq!(
        CompactSize::from_bytes(&[]),
        Err(BitcoinError::InvalidFormat)
    );
}

#[test]
fn test_compact_size_truncated_tags_are_insufficient() {
    assert_eq!(
        CompactSize::from_bytes(&[0xFD, 0x01]),
        Err(BitcoinError::InsufficientBytes)
    );
    assert_eq!(
        CompactSize::from_bytes(&[0xFE, 0x01, 0x02, 0x03]),
        Err(BitcoinError::InsufficientBytes)
    );
    assert_eq!(
        CompactSize::from_bytes(&[0xFF, 1, 2, 3, 4, 5, 6, 7]),
        Err(BitcoinError::InsufficientBytes)
    );
}

#[test]
fn test_compact_size_ignores_trailing_bytes() {
    let (decoded, consumed) = CompactSize::from_bytes(&[0x07, 0xAA, 0xBB]).unwrap();
    assert_eq!(decoded.value, 7);
    assert_eq!(consumed, 1);
    let (decoded, consumed) = CompactSize::from_bytes(&[0xFD, 0x05, 0x00, 0x99]).unwrap();
    assert_eq!(decoded.value, 5);
    assert_eq!(consumed, 3);
}

#[test]
fn test_outpoint_wrong_window_is_insufficient() {
    assert_eq!(
        OutPoint::from_bytes(&[0u8; 35]),
        Err(BitcoinError::InsufficientBytes)
    );
    assert_eq!(
        OutPoint::from_bytes(&[0u8; 37]),
        Err(BitcoinError::InsufficientBytes)
    );
}

#[test]
fn test_script_empty_roundtrip() {
    let script = Script::new(vec![]);
    let bytes = script.to_bytes();
    assert_eq!(bytes, vec![0x00]);
    let (parsed, consumed) = Script::from_bytes(&bytes).unwrap();
    assert_eq!(parsed, script);
    assert_eq!(consumed, 1);
}

#[test]
fn test_script_declared_length_bounds_the_read() {
    // declares 5 payload bytes but holds only 2
    assert_eq!(
        Script::from_bytes(&[0x05, 0x01, 0x02]),
        Err(BitcoinError::InsufficientBytes)
    );
    // trailing bytes beyond the declared length stay unconsumed
    let (parsed, consumed) = Script::from_bytes(&[0x02, 0x01, 0x02, 0x99]).unwrap();
    assert_eq!(parsed, Script::new(vec![0x01, 0x02]));
    assert_eq!(consumed, 3);
}

#[test]
fn test_tx_input_short_buffer_is_insufficient() {
    assert_eq!(
        TransactionInput::from_bytes(&[0u8; 35]),
        Err(BitcoinError::InsufficientBytes)
    );
    // 36 outpoint bytes and nothing else: the script prefix is missing
    assert_eq!(
        TransactionInput::from_bytes(&[0u8; 36]),
        Err(BitcoinError::InvalidFormat)
    );
    // script prefix present but the 4 sequence bytes are not
    let mut buf = vec![0u8; 36];
    buf.push(0x00);
    buf.extend_from_slice(&[0x01, 0x02]);
    assert_eq!(
        TransactionInput::from_bytes(&buf),
        Err(BitcoinError::InsufficientBytes)
    );
}

#[test]
fn test_transaction_multiple_inputs_roundtrip() {
    let inputs = vec![
        TransactionInput::new(
            OutPoint::new(filled_txid(0x11), 0),
            Script::new(vec![0xAA]),
            0,
        ),
        TransactionInput::new(
            OutPoint::new(filled_txid(0x22), 1),
            Script::new(vec![]),
            0xFFFFFFFF,
        ),
        TransactionInput::new(
            OutPoint::new(filled_txid(0x33), 7),
            Script::new(vec![0x01, 0x02, 0x03, 0x04]),
            42,
        ),
    ];
    let tx = BitcoinTransaction::new(2, inputs, 123456);
    let bytes = tx.to_bytes();
    let (parsed, consumed) = BitcoinTransaction::from_bytes(&bytes).unwrap();
    assert_eq!(parsed, tx);
    assert_eq!(consumed, bytes.len());
}

#[test]
fn test_transaction_no_inputs_roundtrip() {
    let tx = BitcoinTransaction::new(1, vec![], 0);
    let bytes = tx.to_bytes();
    // version (4) + count prefix (1) + lock time (4)
    assert_eq!(bytes.len(), 9);
    let (parsed, consumed) = BitcoinTransaction::from_bytes(&bytes).unwrap();
    assert_eq!(parsed, tx);
    assert_eq!(consumed, 9);
}

#[test]
fn test_transaction_truncated_is_insufficient() {
    assert_eq!(
        BitcoinTransaction::from_bytes(&[1, 0, 0]),
        Err(BitcoinError::InsufficientBytes)
    );
    let tx = BitcoinTransaction::new(
        1,
        vec![TransactionInput::new(
            OutPoint::new(filled_txid(9), 4),
            Script::new(vec![0x51]),
            77,
        )],
        5,
    );
    let bytes = tx.to_bytes();
    assert_eq!(
        BitcoinTransaction::from_bytes(&bytes[..bytes.len() - 1]),
        Err(BitcoinError::InsufficientBytes)
    );
}

#[test]
fn test_txid_text_roundtrip() {
    let id = Txid(filled_txid(0xAB));
    let text = id.to_text();
    assert_eq!(text.len(), 64);
    assert!(text.starts_with("ab"));
    assert!(text.ends_with("ab"));
    let back = Txid::from_text(&text).unwrap();
    assert_eq!(back, id);
}

#[test]
fn test_txid_from_text_accepts_uppercase() {
    let id = Txid::from_text(
        "AB000000000000000000000000000000000000000000000000000000000000CD",
    )
    .unwrap();
    assert_eq!(id.0[0], 0xAB);
    assert_eq!(id.0[31], 0xCD);
}

#[test]
fn test_txid_from_text_rejects_bad_input() {
    // wrong length
    assert_eq!(Txid::from_text("abcd"), Err(BitcoinError::InvalidFormat));
    // right length, but not hex
    let bad = "zz00000000000000000000000000000000000000000000000000000000000000";
    assert_eq!(Txid::from_text(bad), Err(BitcoinError::InvalidFormat));
}

#[test]
fn test_text_form_shape() {
    let tx = BitcoinTransaction::new(
        7,
        vec![TransactionInput::new(
            OutPoint::new(filled_txid(0x01), 9),
            Script::new(vec![0, 255]),
            3,
        )],
        11,
    );
    let text = tx.to_text();
    assert!(text.starts_with("{\"version\": 7, \"inputs\": [{\"previous_output\": {\"txid\": \"01"));
    assert!(text.contains("\"vout\": 9"));
    assert!(text.contains("\"bytes\": [0, 255]"));
    assert!(text.contains("\"sequence\": 3"));
    assert!(text.ends_with("\"lock_time\": 11}"));
}

#[test]
fn test_text_roundtrip_many_inputs() {
    let tx = BitcoinTransaction::new(
        4294967295,
        vec![
            TransactionInput::new(OutPoint::new(filled_txid(0xFE), 0), Script::new(vec![]), 0),
            TransactionInput::new(
                OutPoint::new(filled_txid(0x10), 4294967295),
                Script::new(vec![1]),
                4294967295,
            ),
        ],
        0,
    );
    let text = tx.to_text();
    let parsed = BitcoinTransaction::from_text(&text).unwrap();
    assert_eq!(parsed, tx);
}

#[test]
fn test_text_roundtrip_no_inputs() {
    let tx = BitcoinTransaction::new(0, vec![], 4294967295);
    let text = tx.to_text();
    let parsed = BitcoinTransaction::from_text(&text).unwrap();
    assert_eq!(parsed, tx);
}

#[test]
fn test_from_text_rejects_malformed_input() {
    assert_eq!(
        BitcoinTransaction::from_text(""),
        Err(BitcoinError::InvalidFormat)
    );
    assert_eq!(
        BitcoinTransaction::from_text("{}"),
        Err(BitcoinError::InvalidFormat)
    );
    let tx = BitcoinTransaction::new(1, vec![], 2);
    let mut text = tx.to_text();
    text.push(' ');
    assert_eq!(
        BitcoinTransaction::from_text(&text),
        Err(BitcoinError::InvalidFormat)
    );
}
