use crate::wire::{
    get_name, get_u32, lemma_name_at, lemma_name_holds, lemma_u32_before, lemma_u32_then,
    name_at, name_field, name_fits, name_is_fit, put_name, put_u32, u32_at, Wire,
};
use vstd::bytes::*;
use vstd::prelude::*;

verus! {

/// A topic as clients see it: a named, partitioned channel within a stream.
pub struct Topic {
    pub id: u32,
    pub partitions_count: u32,
    pub name: String,
}

/// What a `Topic` stands for.
pub struct TopicView {
    pub id: u32,
    pub partitions_count: u32,
    pub name: Seq<char>,
}

impl View for Topic {
    type V = TopicView;

    open spec fn view(&self) -> TopicView {
        TopicView { id: self.id, partitions_count: self.partitions_count, name: self.name@ }
    }
}

impl Wire for Topic {
    open spec fn fits(m: TopicView) -> bool {
        name_fits(m.name)
    }

    /// Identifier, number of partitions, name.
    open spec fn encoding(m: TopicView) -> Seq<u8> {
        spec_u32_to_le_bytes(m.id) + (spec_u32_to_le_bytes(m.partitions_count) + name_field(
            m.name,
        ))
    }

    open spec fn parse_at(b: Seq<u8>, pos: int) -> Option<(TopicView, int)> {
        if 0 <= pos && pos + 8 <= b.len() {
            match name_at(b, pos + 8) {
                Some((name, end)) => Some(
                    (
                        TopicView {
                            id: u32_at(b, pos),
                            partitions_count: u32_at(b, pos + 4),
                            name,
                        },
                        end,
                    ),
                ),
                None => None,
            }
        } else {
            None
        }
    }

    proof fn lemma_parse_encoding(b: Seq<u8>, pos: int, m: TopicView) {
        let tail = spec_u32_to_le_bytes(m.partitions_count) + name_field(m.name);
        lemma_u32_then(b, pos, m.id, tail);
        lemma_u32_then(b, pos + 4, m.partitions_count, name_field(m.name));
        lemma_name_at(b, pos + 8, m.name);
    }

    proof fn lemma_encoding_parse(b: Seq<u8>, pos: int) {
        let (m, end) = Self::parse_at(b, pos).unwrap();
        lemma_name_holds(b, pos + 8);
        lemma_u32_before(b, pos + 4, name_field(m.name));
        lemma_u32_before(b, pos, spec_u32_to_le_bytes(m.partitions_count) + name_field(m.name));
    }

    fn is_fit(&self) -> (ok: bool) {
        name_is_fit(self.name.as_str())
    }

    fn put(&self, out: &mut Vec<u8>) {
        put_u32(out, self.id);
        put_u32(out, self.partitions_count);
        put_name(out, self.name.as_str());
        assert(out@ =~= old(out)@ + Self::encoding(self@));
    }

    fn get(buf: &[u8], pos: usize) -> (r: Option<(Self, usize)>) {
        let id = match get_u32(buf, pos) {
            Some(id) => id,
            None => { return None; },
        };
        let partitions_count = match get_u32(buf, pos + 4) {
            Some(n) => n,
            None => { return None; },
        };
        match get_name(buf, pos + 8) {
            Some((name, end)) => Some((Topic { id, partitions_count, name }, end)),
            None => None,
        }
    }
}

} // verus!
