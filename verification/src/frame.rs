use crate::error::Error;
use crate::wire::{get_u32, lemma_u32_before, lemma_u32_then, put_bytes, put_u32, u32_at, Wire};
use vstd::bytes::*;
use vstd::prelude::*;

verus! {

/// A frame: the length of the body in four bytes, then the body, which
/// begins with a code.
pub open spec fn framed(body: Seq<u8>) -> Seq<u8> {
    spec_u32_to_le_bytes(body.len() as u32) + body
}

/// Whether a value can travel in one frame: it fits, and the length of its
/// encoding fits in four bytes.
pub open spec fn frame_fits<T: Wire>(m: T::V) -> bool {
    T::fits(m) && T::encoding(m).len() <= u32::MAX
}

/// The frame that carries a value.
pub open spec fn frame_of<T: Wire>(m: T::V) -> Seq<u8> {
    framed(T::encoding(m))
}

/// The value that a frame carries: the length must be that of what follows,
/// and what follows must be one whole value and nothing more.
pub open spec fn unframe<T: Wire>(b: Seq<u8>) -> Option<T::V> {
    if b.len() >= 4 && u32_at(b, 0) == b.len() - 4 {
        match T::parse_at(b, 4) {
            Some((m, end)) => if end == b.len() {
                Some(m)
            } else {
                None
            },
            None => None,
        }
    } else {
        None
    }
}

/// Round trip: the frame of a value carries that value.
pub proof fn lemma_unframe_frame<T: Wire>(m: T::V)
    requires
        frame_fits::<T>(m),
    ensures
        unframe::<T>(frame_of::<T>(m)) == Some(m),
{
    let b = frame_of::<T>(m);
    assert(b.subrange(0, b.len() as int) =~= b);
    lemma_u32_then(b, 0, T::encoding(m).len() as u32, T::encoding(m));
    T::lemma_parse_encoding(b, 4, m);
}

/// Frames are canonical: bytes that carry a value are the frame of that
/// value, and the value can travel.
pub proof fn lemma_frame_unframe<T: Wire>(b: Seq<u8>)
    requires
        unframe::<T>(b) is Some,
    ensures
        frame_fits::<T>(unframe::<T>(b).unwrap()),
        frame_of::<T>(unframe::<T>(b).unwrap()) == b,
{
    let m = unframe::<T>(b).unwrap();
    T::lemma_encoding_parse(b, 4);
    lemma_u32_before(b, 0, T::encoding(m));
    lemma_auto_spec_u32_to_from_le_bytes();
    assert(b.subrange(0, b.len() as int) =~= b);
}

/// No two values travel in the same frame.
pub proof fn lemma_frame_injective<T: Wire>(m1: T::V, m2: T::V)
    requires
        frame_fits::<T>(m1),
        frame_fits::<T>(m2),
        frame_of::<T>(m1) == frame_of::<T>(m2),
    ensures
        m1 == m2,
{
    lemma_unframe_frame::<T>(m1);
    lemma_unframe_frame::<T>(m2);
}

/// Puts a body in a frame.
fn wrap(body: &Vec<u8>) -> (out: Vec<u8>)
    requires
        body@.len() <= u32::MAX,
    ensures
        out@ == framed(body@),
{
    let mut out: Vec<u8> = Vec::new();
    put_u32(&mut out, body.len() as u32);
    put_bytes(&mut out, body.as_slice());
    assert(out@ =~= framed(body@));
    out
}

/// Puts a value that can travel in a frame.
pub fn frame_value<T: Wire>(value: &T) -> (bytes: Vec<u8>)
    requires
        frame_fits::<T>(value@),
    ensures
        bytes@ == frame_of::<T>(value@),
{
    let mut body: Vec<u8> = Vec::new();
    value.put(&mut body);
    assert(body@ =~= T::encoding(value@));
    wrap(&body)
}

/// Puts a value in a frame. Gives nothing where the value cannot travel.
pub fn to_frame<T: Wire>(value: &T) -> (r: Option<Vec<u8>>)
    ensures
        r is Some <==> frame_fits::<T>(value@),
        r matches Some(bytes) ==> bytes@ == frame_of::<T>(value@),
{
    if !value.is_fit() {
        return None;
    }
    let mut body: Vec<u8> = Vec::new();
    value.put(&mut body);
    assert(body@ =~= T::encoding(value@));
    if body.len() > u32::MAX as usize {
        return None;
    }
    Some(wrap(&body))
}

/// Takes the value out of a frame. Fails with `ProtocolError` where the
/// bytes are not the frame of a value of this type.
pub fn from_frame<T: Wire>(bytes: &[u8]) -> (r: Result<T, Error>)
    ensures
        match unframe::<T>(bytes@) {
            Some(m) => r matches Ok(value) && value@ == m,
            None => r matches Err(e) && e == Error::ProtocolError,
        },
{
    let length = match get_u32(bytes, 0) {
        Some(length) => length,
        None => { return Err(Error::ProtocolError); },
    };
    if length as usize != bytes.len() - 4 {
        return Err(Error::ProtocolError);
    }
    match T::get(bytes, 4) {
        Some((value, end)) => {
            if end == bytes.len() {
                Ok(value)
            } else {
                Err(Error::ProtocolError)
            }
        },
        None => Err(Error::ProtocolError),
    }
}

/// The number of bytes that follow the four bytes of a frame's length.
pub fn body_length(prefix: &[u8]) -> (r: Option<usize>)
    ensures
        r == (if prefix@.len() >= 4 && u32_at(prefix@, 0) <= usize::MAX {
            Some(u32_at(prefix@, 0) as usize)
        } else {
            None
        }),
{
    match get_u32(prefix, 0) {
        Some(length) => {
            if length as u64 <= usize::MAX as u64 {
                Some(length as usize)
            } else {
                None
            }
        },
        None => None,
    }
}

} // verus!
