//! Framing of the messages exchanged with the client: each message is its
//! byte length as a big-endian `u32`, followed by that many bytes of JSON.

use vstd::prelude::*;
use vstd::string::StringSliceAdditionalSpecFns;
use byteorder::ByteOrder;

verus! {

/// The largest message body accepted, in bytes.
pub const MAX_MESSAGE_SIZE: u32 = 4 * 1024 * 1024;

/// The four bytes of `n`, most significant first.
pub open spec fn be_bytes(n: u32) -> Seq<u8> {
    seq![
        (n / 0x100_0000) as u8,
        (n / 0x1_0000 % 0x100) as u8,
        (n / 0x100 % 0x100) as u8,
        (n % 0x100) as u8,
    ]
}

/// The number whose four bytes, most significant first, start `b`.
pub open spec fn be_value(b: Seq<u8>) -> int {
    b[0] * 0x100_0000 + b[1] * 0x1_0000 + b[2] * 0x100 + b[3]
}

/// Relies on `byteorder::BigEndian::write_u32`: it stores `n` in the first
/// four bytes of the buffer, most significant first.
#[verifier::external_body]
fn u32_to_be(n: u32) -> (r: Vec<u8>)
    ensures
        r@ == be_bytes(n),
{
    let mut buf = vec![0u8; 4];
    byteorder::BigEndian::write_u32(&mut buf, n);
    buf
}

/// Relies on `byteorder::BigEndian::read_u32`: it reads the first four
/// bytes of the buffer as a number, most significant first (and panics on a
/// shorter buffer).
#[verifier::external_body]
fn be_to_u32(b: &[u8]) -> (r: u32)
    requires
        b@.len() >= 4,
    ensures
        r == be_value(b@),
{
    byteorder::BigEndian::read_u32(b)
}

/// Why a frame was refused.
#[derive(Debug, Clone, Copy, PartialEq, Eq, Structural)]
pub enum FrameError {
    /// The announced body is larger than `MAX_MESSAGE_SIZE`; holds its size.
    TooLarge(u32),
}

/// Frames a message: its byte length, big-endian, then its UTF-8 bytes.
pub fn encode_message(msg: &str) -> (r: Vec<u8>)
    requires
        msg.spec_bytes().len() <= u32::MAX,
    ensures
        r@ == be_bytes(msg.spec_bytes().len() as u32) + msg.spec_bytes(),
{
    let bytes = msg.as_bytes();
    let mut out = u32_to_be(bytes.len() as u32);
    let ghost head = out@;
    let mut i: usize = 0;
    while i < bytes.len()
        invariant
            i <= bytes@.len(),
            out@ == head + bytes@.take(i as int),
        decreases bytes@.len() - i,
    {
        out.push(bytes[i]);
        assert(bytes@.take(i + 1) =~= bytes@.take(i as int).push(bytes@[i as int]));
        i += 1;
    }
    assert(bytes@.take(i as int) =~= bytes@);
    out
}

/// The body length that a frame header announces, refused when it exceeds
/// `MAX_MESSAGE_SIZE`.
pub fn frame_length(header: &[u8]) -> (r: Result<usize, FrameError>)
    requires
        header@.len() >= 4,
    ensures
        be_value(header@) <= MAX_MESSAGE_SIZE ==> r == Ok::<usize, FrameError>(be_value(header@) as usize),
        be_value(header@) > MAX_MESSAGE_SIZE ==> r == Err::<usize, FrameError>(FrameError::TooLarge(be_value(header@) as u32)),
{
    let len = be_to_u32(header);
    if len > MAX_MESSAGE_SIZE {
        Err(FrameError::TooLarge(len))
    } else {
        Ok(len as usize)
    }
}

} // verus!
