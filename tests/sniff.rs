use uaforge::firewall::Endpoint;
use uaforge::sniff::{decode_original_dst, is_http_request, PEEK_BUFFER_SIZE};

#[test]
fn keyword_length_buffer_classifies() {
    assert!(is_http_request(b"GET "));
    assert!(!is_http_request(b"GET\r"));
    assert!(!is_http_request(b"GET"));
    assert!(!is_http_request(b""));
}

#[test]
fn all_methods_are_http() {
    for m in ["GET ", "POST ", "HEAD ", "PUT ", "DELETE ", "OPTIONS ", "TRACE ", "CONNECT ", "PATCH "] {
        let mut buf = m.as_bytes().to_vec();
        buf.truncate(PEEK_BUFFER_SIZE);
        assert!(is_http_request(&buf), "{m}");
    }
    assert!(is_http_request(b"GET / HT"));
    assert!(!is_http_request(b"get / HT"));
    assert!(!is_http_request(b"OPTIONS/"));
}

#[test]
fn tls_client_hello_is_not_http() {
    assert!(!is_http_request(&[0x16, 0x03, 0x01, 0x00, 0xa5, 0x01, 0x00, 0x00]));
}

#[test]
fn sockaddr_in_is_decoded_in_network_order() {
    let raw = [2u8, 0, 0x01, 0xbb, 1, 2, 3, 4, 0, 0, 0, 0, 0, 0, 0, 0];
    assert_eq!(decode_original_dst(&raw), Some(Endpoint { ip: 0x0102_0304, port: 443 }));
    assert_eq!(decode_original_dst(&raw[..7]), None);
}
