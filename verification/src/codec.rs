//! MessagePack encoding of the strings that the state machine stores.
use vstd::prelude::*;
use vstd::string::*;

use crate::rocksstore::keys::push_bytes;

verus! {

/// The MessagePack `str` header that rmp writes for a string of `len` bytes:
/// fixstr below 32, then str 8, str 16 and str 32, lengths big-endian.
/// rmp takes the length as a `u32`, so it is reduced modulo 2^32 first.
pub open spec fn msgpack_str_header(len: nat) -> Seq<u8> {
    let l = len % 0x1_0000_0000;
    if l < 32 {
        seq![(0xa0 + l) as u8]
    } else if l < 256 {
        seq![0xd9u8, l as u8]
    } else if l < 65536 {
        seq![0xdau8, (l / 256) as u8, (l % 256) as u8]
    } else {
        seq![
            0xdbu8,
            (l / 16777216) as u8,
            ((l / 65536) % 256) as u8,
            ((l / 256) % 256) as u8,
            (l % 256) as u8,
        ]
    }
}

/// The MessagePack encoding of the string whose UTF-8 bytes are `bytes`.
pub open spec fn msgpack_str(bytes: Seq<u8>) -> Seq<u8> {
    msgpack_str_header(bytes.len()) + bytes
}

/// The MessagePack encoding of `value` as a `str`: the header for its
/// length, then its UTF-8 bytes. These are the bytes that `rmp_serde::to_vec`
/// writes for a string, which is how the state machine's values are stored.
pub fn encode_string(value: &str) -> (r: Vec<u8>)
    ensures
        r@ == msgpack_str(value.spec_bytes()),
{
    let bytes = value.as_bytes();
    let l: u64 = (bytes.len() as u64) % 0x1_0000_0000;
    let mut r: Vec<u8> = Vec::new();
    if l < 32 {
        r.push((0xa0 + l) as u8);
    } else if l < 256 {
        r.push(0xd9);
        r.push(l as u8);
    } else if l < 65536 {
        r.push(0xda);
        r.push((l / 256) as u8);
        r.push((l % 256) as u8);
    } else {
        r.push(0xdb);
        r.push((l / 16777216) as u8);
        r.push(((l / 65536) % 256) as u8);
        r.push(((l / 256) % 256) as u8);
        r.push((l % 256) as u8);
    }
    assert(r@ =~= msgpack_str_header(bytes@.len()));
    push_bytes(&mut r, bytes);
    r
}

} // verus!
