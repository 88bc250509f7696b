use gptl_routing::address::IpAddr;
use gptl_routing::rpki_rtr::{
    exchange, parse_header, reset_query, Exchange, Progress, RtrError, CACHE_RESET,
    CACHE_RESPONSE, END_OF_DATA, ERROR_REPORT, IPV4_PREFIX, IPV6_PREFIX, RESET_QUERY,
};

const END: &str = "early eof";

fn encode_pdu(version: u8, typ: u8, sof: u16, payload: &[u8]) -> Vec<u8> {
    let length = (8 + payload.len()) as u32;
    let mut out = Vec::with_capacity(8 + payload.len());
    out.push(version);
    out.push(typ);
    out.extend_from_slice(&sof.to_be_bytes());
    out.extend_from_slice(&length.to_be_bytes());
    out.extend_from_slice(payload);
    out
}

fn ipv4_prefix_payload(flags: u8, plen: u8, maxlen: u8, ip: [u8; 4], asn: u32) -> Vec<u8> {
    let mut p = vec![flags, plen, maxlen, 0];
    p.extend_from_slice(&ip);
    p.extend_from_slice(&asn.to_be_bytes());
    p
}

fn ipv6_prefix_payload(flags: u8, plen: u8, maxlen: u8, ip: [u8; 16], asn: u32) -> Vec<u8> {
    let mut p = vec![flags, plen, maxlen, 0];
    p.extend_from_slice(&ip);
    p.extend_from_slice(&asn.to_be_bytes());
    p
}

fn end_of_data_payload_v1(serial: u32) -> Vec<u8> {
    let mut p = Vec::with_capacity(16);
    p.extend_from_slice(&serial.to_be_bytes());
    // refresh / retry / expire — fake values.
    p.extend_from_slice(&3600u32.to_be_bytes());
    p.extend_from_slice(&600u32.to_be_bytes());
    p.extend_from_slice(&7200u32.to_be_bytes());
    p
}

/// A Cache Response, two v4 prefixes, one v6 prefix, then End of Data.
fn build_happy_path_stream() -> Vec<u8> {
    let mut s = Vec::new();
    s.extend_from_slice(&encode_pdu(1, CACHE_RESPONSE, 0xABCDu16, &[]));
    s.extend_from_slice(&encode_pdu(
        1,
        IPV4_PREFIX,
        0,
        &ipv4_prefix_payload(0x01, 24, 24, [1, 0, 0, 0], 13335),
    ));
    s.extend_from_slice(&encode_pdu(
        1,
        IPV4_PREFIX,
        0,
        &ipv4_prefix_payload(0x01, 24, 24, [8, 8, 8, 0], 15169),
    ));
    let v6 = [0x20, 0x01, 0x0d, 0xb8, 0, 0, 0, 0, 0, 0, 0, 0, 0, 0, 0, 0];
    s.extend_from_slice(&encode_pdu(
        1,
        IPV6_PREFIX,
        0,
        &ipv6_prefix_payload(0x01, 32, 48, v6, 65000),
    ));
    s.extend_from_slice(&encode_pdu(1, END_OF_DATA, 0xABCDu16, &end_of_data_payload_v1(42)));
    s
}

#[test]
fn test_exchange_parses_cache_response_prefixes_and_eod() {
    let bytes = build_happy_path_stream();

    assert_eq!(reset_query(1)[1], RESET_QUERY, "client must send Reset Query as first PDU");

    let snapshot = exchange(&bytes, END).expect("exchange must succeed");

    assert_eq!(snapshot.version, 1);
    assert_eq!(snapshot.session_id, 0xABCD);
    assert_eq!(snapshot.serial, 42);
    assert_eq!(snapshot.prefixes.len(), 3, "expected 2 v4 + 1 v6");
    let cf = &snapshot.prefixes[0];
    assert_eq!(cf.origin_as, 13335);
    assert_eq!(cf.prefix_len, 24);
    assert_eq!(cf.prefix, IpAddr::v4(1, 0, 0, 0));
    let v6 = &snapshot.prefixes[2];
    assert!(matches!(v6.prefix, IpAddr::V6(_)));
    assert_eq!(v6.origin_as, 65000);
}

#[test]
fn test_exchange_rejects_cache_reset() {
    let bytes = encode_pdu(1, CACHE_RESET, 0, &[]);
    let err = exchange(&bytes, END).unwrap_err();
    assert!(
        matches!(err, RtrError::Protocol(_)),
        "Cache Reset must surface as a Protocol error; got {:?}",
        err
    );
}

#[test]
fn test_exchange_reports_server_error_pdu() {
    // Construct an Error Report PDU with code=2 ("No Data Available")
    // and message "down for maintenance".
    let message = b"down for maintenance";
    let mut payload = Vec::new();
    // Encapsulated PDU length = 0
    payload.extend_from_slice(&0u32.to_be_bytes());
    // Message length + message
    payload.extend_from_slice(&(message.len() as u32).to_be_bytes());
    payload.extend_from_slice(message);
    let bytes = encode_pdu(1, ERROR_REPORT, 2u16, &payload);

    let err = exchange(&bytes, END).unwrap_err();
    match err {
        RtrError::ServerError { code, message } => {
            assert_eq!(code, 2);
            assert_eq!(message, "down for maintenance");
        }
        other => panic!("expected ServerError, got {:?}", other),
    }
}

#[test]
fn bytes_that_are_no_text_are_replaced() {
    let message = [b'o', 0xFF, b'k'];
    let mut payload = Vec::new();
    payload.extend_from_slice(&0u32.to_be_bytes());
    payload.extend_from_slice(&3u32.to_be_bytes());
    payload.extend_from_slice(&message);
    let bytes = encode_pdu(1, ERROR_REPORT, 7u16, &payload);
    match exchange(&bytes, END).unwrap_err() {
        RtrError::ServerError { code, message } => {
            assert_eq!(code, 7);
            assert_eq!(message, "o\u{FFFD}k");
        }
        other => panic!("expected ServerError, got {:?}", other),
    }
}

#[test]
fn test_exchange_rejects_oversized_pdu() {
    // A PDU header with length = 100 KB: no giant buffer is asked for.
    let mut bytes = vec![1u8, CACHE_RESPONSE, 0, 0];
    bytes.extend_from_slice(&(100_000u32).to_be_bytes());
    let err = exchange(&bytes, END).unwrap_err();
    assert!(matches!(err, RtrError::Protocol(_)));
}

#[test]
fn test_exchange_rejects_short_pdu_length() {
    let mut bytes = vec![1u8, CACHE_RESPONSE, 0, 0];
    bytes.extend_from_slice(&4u32.to_be_bytes()); // length < 8
    let err = exchange(&bytes, END).unwrap_err();
    assert!(matches!(err, RtrError::Protocol(_)));
}

#[test]
fn an_answer_that_breaks_off_is_an_error() {
    let mut bytes = build_happy_path_stream();
    bytes.truncate(bytes.len() - 1);
    match exchange(&bytes, END).unwrap_err() {
        RtrError::Io(reason) => assert!(reason.contains(END)),
        other => panic!("expected Io, got {:?}", other),
    }
}

#[test]
fn what_follows_the_end_of_data_is_not_read() {
    let mut bytes = build_happy_path_stream();
    bytes.extend_from_slice(&[0xFF; 40]);
    assert_eq!(exchange(&bytes, END).unwrap().serial, 42);
}

#[test]
fn reading_piece_by_piece_gives_the_same() {
    let bytes = build_happy_path_stream();
    let mut machine = Exchange::new();
    let mut at = 0;
    let snapshot = loop {
        let n = machine.next_read();
        match machine.feed(&bytes[at..at + n]) {
            Progress::More(next) => machine = next,
            Progress::Done(snapshot) => break snapshot,
            Progress::Failed(e) => panic!("unexpected error {:?}", e),
        }
        at += n;
    };
    let whole = exchange(&bytes, END).unwrap();
    assert_eq!(snapshot.serial, whole.serial);
    assert_eq!(snapshot.prefixes.len(), whole.prefixes.len());
}

#[test]
fn headers_byte_by_byte() {
    assert_eq!(reset_query(1), vec![1, 2, 0, 0, 0, 0, 0, 8]);
    let h = parse_header(&[1, 4, 0xAB, 0xCD, 0, 0, 0, 20]).unwrap();
    assert_eq!((h.version, h.typ, h.session_or_flags, h.length), (1, 4, 0xABCD, 20));
    assert_eq!(RtrError::Timeout.to_string(), "operation timed out");
}
