use crate::wire::{
    get_u32, get_u64, lemma_u32_before, lemma_u32_then, lemma_u64_before, lemma_u64_then,
    put_bytes, put_u32, put_u64, u32_at, u64_at, Wire,
};
use vstd::bytes::*;
use vstd::prelude::*;
use vstd::slice::*;

verus! {

/// A payload travels as its length in four bytes, then its bytes.
impl Wire for Vec<u8> {
    open spec fn fits(m: Seq<u8>) -> bool {
        m.len() <= u32::MAX
    }

    open spec fn encoding(m: Seq<u8>) -> Seq<u8> {
        spec_u32_to_le_bytes(m.len() as u32) + m
    }

    open spec fn parse_at(b: Seq<u8>, pos: int) -> Option<(Seq<u8>, int)> {
        if 0 <= pos && pos + 4 <= b.len() && pos + 4 + u32_at(b, pos) <= b.len() {
            Some((b.subrange(pos + 4, pos + 4 + u32_at(b, pos)), pos + 4 + u32_at(b, pos)))
        } else {
            None
        }
    }

    proof fn lemma_parse_encoding(b: Seq<u8>, pos: int, m: Seq<u8>) {
        lemma_u32_then(b, pos, m.len() as u32, m);
    }

    proof fn lemma_encoding_parse(b: Seq<u8>, pos: int) {
        let (m, end) = Self::parse_at(b, pos).unwrap();
        lemma_u32_before(b, pos, m);
    }

    fn is_fit(&self) -> (ok: bool) {
        self.len() <= u32::MAX as usize
    }

    fn put(&self, out: &mut Vec<u8>) {
        put_u32(out, self.len() as u32);
        put_bytes(out, self.as_slice());
        assert(out@ =~= old(out)@ + Self::encoding(self@));
    }

    fn get(buf: &[u8], pos: usize) -> (r: Option<(Self, usize)>) {
        let n: usize = match get_u32(buf, pos) {
            Some(n) => n as usize,
            None => { return None; },
        };
        if n > buf.len() - pos - 4 {
            return None;
        }
        let bytes = slice_to_vec(slice_subrange(buf, pos + 4, pos + 4 + n));
        Some((bytes, pos + 4 + n))
    }
}

/// A message of a partition: its offset and its content.
pub struct Message {
    pub offset: u64,
    pub payload: Vec<u8>,
}

/// What a `Message` stands for.
pub struct MessageView {
    pub offset: u64,
    pub payload: Seq<u8>,
}

impl View for Message {
    type V = MessageView;

    open spec fn view(&self) -> MessageView {
        MessageView { offset: self.offset, payload: self.payload@ }
    }
}

/// A message is stored, and travels, as a record: its offset in eight bytes,
/// then its payload.
impl Wire for Message {
    open spec fn fits(m: MessageView) -> bool {
        <Vec<u8> as Wire>::fits(m.payload)
    }

    open spec fn encoding(m: MessageView) -> Seq<u8> {
        spec_u64_to_le_bytes(m.offset) + <Vec<u8> as Wire>::encoding(m.payload)
    }

    open spec fn parse_at(b: Seq<u8>, pos: int) -> Option<(MessageView, int)> {
        if 0 <= pos && pos + 8 <= b.len() {
            match <Vec<u8> as Wire>::parse_at(b, pos + 8) {
                Some((payload, end)) => Some((MessageView { offset: u64_at(b, pos), payload }, end)),
                None => None,
            }
        } else {
            None
        }
    }

    proof fn lemma_parse_encoding(b: Seq<u8>, pos: int, m: MessageView) {
        lemma_u64_then(b, pos, m.offset, <Vec<u8> as Wire>::encoding(m.payload));
        <Vec<u8> as Wire>::lemma_parse_encoding(b, pos + 8, m.payload);
    }

    proof fn lemma_encoding_parse(b: Seq<u8>, pos: int) {
        let (m, end) = Self::parse_at(b, pos).unwrap();
        <Vec<u8> as Wire>::lemma_encoding_parse(b, pos + 8);
        lemma_u64_before(b, pos, <Vec<u8> as Wire>::encoding(m.payload));
    }

    fn is_fit(&self) -> (ok: bool) {
        self.payload.is_fit()
    }

    fn put(&self, out: &mut Vec<u8>) {
        put_u64(out, self.offset);
        self.payload.put(out);
        assert(out@ =~= old(out)@ + Self::encoding(self@));
    }

    fn get(buf: &[u8], pos: usize) -> (r: Option<(Self, usize)>) {
        let offset = match get_u64(buf, pos) {
            Some(offset) => offset,
            None => { return None; },
        };
        match <Vec<u8> as Wire>::get(buf, pos + 8) {
            Some((payload, end)) => Some((Message { offset, payload }, end)),
            None => None,
        }
    }
}

} // verus!
