//! Classifying a flow by its first bytes, and reading the address that the
//! kernel reports as a flow's original destination.

use vstd::prelude::*;

use crate::firewall::Endpoint;
use crate::text::chars_of;

verus! {

/// How many bytes are peeked before classifying a flow.
pub const PEEK_BUFFER_SIZE: usize = 8;

/// Whether `buf` begins with the ASCII characters of `word`.
pub open spec fn bytes_start_with(buf: Seq<u8>, word: Seq<char>) -> bool {
    word.len() <= buf.len() && forall|i: int| 0 <= i < word.len() ==> (buf[i] as char) == #[trigger] word[i]
}

/// Whether `buf` begins with an HTTP/1 request method and a space.
pub open spec fn starts_http(buf: Seq<u8>) -> bool {
    ||| bytes_start_with(buf, "GET "@)
    ||| bytes_start_with(buf, "POST "@)
    ||| bytes_start_with(buf, "HEAD "@)
    ||| bytes_start_with(buf, "PUT "@)
    ||| bytes_start_with(buf, "DELETE "@)
    ||| bytes_start_with(buf, "OPTIONS "@)
    ||| bytes_start_with(buf, "TRACE "@)
    ||| bytes_start_with(buf, "CONNECT "@)
    ||| bytes_start_with(buf, "PATCH "@)
}

fn starts_with_word(buf: &[u8], word: &str) -> (r: bool)
    ensures
        r == bytes_start_with(buf@, word@),
{
    let w = chars_of(word);
    if w.len() > buf.len() {
        return false;
    }
    let mut i: usize = 0;
    while i < w.len()
        invariant
            w@ == word@,
            w@.len() <= buf@.len(),
            i <= w@.len(),
            forall|j: int| 0 <= j < i ==> (buf@[j] as char) == #[trigger] w@[j],
        decreases w@.len() - i,
    {
        if buf[i] as char != w[i] {
            return false;
        }
        i = i + 1;
    }
    true
}

/// Whether the first bytes of a flow are those of an HTTP/1 request.
pub fn is_http_request(buf: &[u8]) -> (r: bool)
    ensures
        r == starts_http(buf@),
{
    starts_with_word(buf, "GET ") || starts_with_word(buf, "POST ") || starts_with_word(buf, "HEAD ")
        || starts_with_word(buf, "PUT ") || starts_with_word(buf, "DELETE ")
        || starts_with_word(buf, "OPTIONS ") || starts_with_word(buf, "TRACE ")
        || starts_with_word(buf, "CONNECT ") || starts_with_word(buf, "PATCH ")
}

/// The destination held in a `sockaddr_in` as the kernel returns it: the
/// port in bytes 2 and 3 and the address in bytes 4 to 7, both in network
/// order.
pub open spec fn sockaddr_endpoint(raw: Seq<u8>) -> Endpoint {
    Endpoint {
        ip: (raw[4] as nat * 16777216 + raw[5] as nat * 65536 + raw[6] as nat * 256 + raw[7] as nat) as u32,
        port: (raw[2] as nat * 256 + raw[3] as nat) as u16,
    }
}

/// Reads the destination out of a `sockaddr_in`; `None` when it is too short.
pub fn decode_original_dst(raw: &[u8]) -> (r: Option<Endpoint>)
    ensures
        raw@.len() < 8 ==> r.is_none(),
        raw@.len() >= 8 ==> r == Some(sockaddr_endpoint(raw@)),
{
    if raw.len() < 8 {
        return None;
    }
    let port: u16 = (raw[2] as u16) * 256 + (raw[3] as u16);
    let ip: u32 = (raw[4] as u32) * 16777216 + (raw[5] as u32) * 65536 + (raw[6] as u32) * 256 + (raw[7] as u32);
    Some(Endpoint { ip, port })
}

} // verus!
