use hyle::modules::websocket::WsOutMessage;
use hyle::p2p::network::{verify_msg_header, HeaderError, HeaderSignableData, MsgHeader};

fn header(timestamp: u128, hash: Vec<u8>) -> MsgHeader {
    MsgHeader { timestamp, hash: HeaderSignableData(hash) }
}

#[test]
fn fresh_signed_matching_header_passes() {
    let h = header(10_000_000, vec![1, 2, 3]);
    assert_eq!(verify_msg_header(&h, &HeaderSignableData(vec![1, 2, 3]), true, 10_000_500), Ok(()));
}

#[test]
fn header_checks_in_order() {
    let h = header(0, vec![1]);
    assert_eq!(
        verify_msg_header(&h, &HeaderSignableData(vec![2]), false, 3_600_001),
        Err(HeaderError::TimestampTooFar)
    );
    assert_eq!(verify_msg_header(&h, &HeaderSignableData(vec![2]), false, 3_600_000), Err(HeaderError::InvalidSignature));
    assert_eq!(verify_msg_header(&h, &HeaderSignableData(vec![2]), true, 3_600_000), Err(HeaderError::HashMismatch));
    assert_eq!(verify_msg_header(&h, &HeaderSignableData(vec![1, 0]), true, 0), Err(HeaderError::HashMismatch));
    // A header from the future is judged the same way.
    let ahead = header(7_200_001, vec![]);
    assert_eq!(verify_msg_header(&ahead, &HeaderSignableData(vec![]), true, 3_600_000), Err(HeaderError::TimestampTooFar));
    assert_eq!(verify_msg_header(&ahead, &HeaderSignableData(vec![]), true, 3_600_001), Ok(()));
}

#[test]
fn hash_labels() {
    assert_eq!(header(0, vec![]).hash_label(), "empty".to_string());
    assert_eq!(header(0, vec![0xab, 0x01]).hash_label(), "ab01".to_string());
    assert_eq!(header(0, (0u8..12).collect()).hash_label(), "000102030405...".to_string());
}

#[test]
fn ws_out_message_wraps() {
    let m = WsOutMessage::new(42u32);
    assert_eq!(m.message, 42);
}
