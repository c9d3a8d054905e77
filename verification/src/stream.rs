use crate::topic::{Topic, TopicView};
use crate::wire::{
    counted_at, counted_encoding, counted_fits, counted_is_fit, lemma_counted_end, name_is_fit, get_counted, get_name, get_u32, get_u64,
    lemma_counted_before, lemma_counted_then, lemma_holds_at_empty, lemma_name_at,
    lemma_name_before, lemma_name_holds, lemma_name_then, lemma_u32_before, lemma_u32_then,
    lemma_u64_before, lemma_u64_then, models, name_at, name_field, name_fits, put_counted,
    put_name, put_u32, put_u64, u32_at, u64_at, Wire,
};
use vstd::bytes::*;
use vstd::prelude::*;

verus! {

/// A stream as a listing shows it.
pub struct Stream {
    pub id: u32,
    pub created_at: u64,
    pub topics_count: u32,
    pub name: String,
}

/// What a `Stream` stands for.
pub struct StreamView {
    pub id: u32,
    pub created_at: u64,
    pub topics_count: u32,
    pub name: Seq<char>,
}

impl View for Stream {
    type V = StreamView;

    open spec fn view(&self) -> StreamView {
        StreamView {
            id: self.id,
            created_at: self.created_at,
            topics_count: self.topics_count,
            name: self.name@,
        }
    }
}

impl Wire for Stream {
    open spec fn fits(m: StreamView) -> bool {
        name_fits(m.name)
    }

    /// Identifier, time of creation, number of topics, name.
    open spec fn encoding(m: StreamView) -> Seq<u8> {
        spec_u32_to_le_bytes(m.id) + (spec_u64_to_le_bytes(m.created_at) + (spec_u32_to_le_bytes(
            m.topics_count,
        ) + name_field(m.name)))
    }

    open spec fn parse_at(b: Seq<u8>, pos: int) -> Option<(StreamView, int)> {
        if 0 <= pos && pos + 16 <= b.len() {
            match name_at(b, pos + 16) {
                Some((name, end)) => Some(
                    (
                        StreamView {
                            id: u32_at(b, pos),
                            created_at: u64_at(b, pos + 4),
                            topics_count: u32_at(b, pos + 12),
                            name,
                        },
                        end,
                    ),
                ),
                None => None,
            }
        } else {
            None
        }
    }

    proof fn lemma_parse_encoding(b: Seq<u8>, pos: int, m: StreamView) {
        let last = spec_u32_to_le_bytes(m.topics_count) + name_field(m.name);
        let tail = spec_u64_to_le_bytes(m.created_at) + last;
        lemma_u32_then(b, pos, m.id, tail);
        lemma_u64_then(b, pos + 4, m.created_at, last);
        lemma_u32_then(b, pos + 12, m.topics_count, name_field(m.name));
        lemma_name_at(b, pos + 16, m.name);
    }

    proof fn lemma_encoding_parse(b: Seq<u8>, pos: int) {
        let (m, end) = Self::parse_at(b, pos).unwrap();
        let last = spec_u32_to_le_bytes(m.topics_count) + name_field(m.name);
        let tail = spec_u64_to_le_bytes(m.created_at) + last;
        lemma_name_holds(b, pos + 16);
        lemma_u32_before(b, pos + 12, name_field(m.name));
        lemma_u64_before(b, pos + 4, last);
        lemma_u32_before(b, pos, tail);
    }

    fn is_fit(&self) -> (ok: bool) {
        name_is_fit(self.name.as_str())
    }

    fn put(&self, out: &mut Vec<u8>) {
        put_u32(out, self.id);
        put_u64(out, self.created_at);
        put_u32(out, self.topics_count);
        put_name(out, self.name.as_str());
        assert(out@ =~= old(out)@ + Self::encoding(self@));
    }

    fn get(buf: &[u8], pos: usize) -> (r: Option<(Self, usize)>) {
        let id = match get_u32(buf, pos) {
            Some(id) => id,
            None => { return None; },
        };
        let created_at = match get_u64(buf, pos + 4) {
            Some(t) => t,
            None => { return None; },
        };
        let topics_count = match get_u32(buf, pos + 12) {
            Some(n) => n,
            None => { return None; },
        };
        match get_name(buf, pos + 16) {
            Some((name, end)) => Some((Stream { id, created_at, topics_count, name }, end)),
            None => None,
        }
    }
}

/// A stream with its topics.
pub struct StreamDetails {
    pub id: u32,
    pub created_at: u64,
    pub name: String,
    pub topics: Vec<Topic>,
}

/// What a `StreamDetails` stands for.
pub struct StreamDetailsView {
    pub id: u32,
    pub created_at: u64,
    pub name: Seq<char>,
    pub topics: Seq<TopicView>,
}

impl View for StreamDetails {
    type V = StreamDetailsView;

    open spec fn view(&self) -> StreamDetailsView {
        StreamDetailsView {
            id: self.id,
            created_at: self.created_at,
            name: self.name@,
            topics: models(self.topics@),
        }
    }
}

impl Wire for StreamDetails {
    open spec fn fits(m: StreamDetailsView) -> bool {
        name_fits(m.name) && counted_fits::<Topic>(m.topics)
    }

    /// Identifier, time of creation, name, then the topics as a counted list.
    open spec fn encoding(m: StreamDetailsView) -> Seq<u8> {
        spec_u32_to_le_bytes(m.id) + (spec_u64_to_le_bytes(m.created_at) + (name_field(m.name)
            + counted_encoding::<Topic>(m.topics)))
    }

    open spec fn parse_at(b: Seq<u8>, pos: int) -> Option<(StreamDetailsView, int)> {
        if 0 <= pos && pos + 12 <= b.len() {
            match name_at(b, pos + 12) {
                Some((name, mid)) => match counted_at::<Topic>(b, mid) {
                    Some((topics, end)) => Some(
                        (
                            StreamDetailsView {
                                id: u32_at(b, pos),
                                created_at: u64_at(b, pos + 4),
                                name,
                                topics,
                            },
                            end,
                        ),
                    ),
                    None => None,
                },
                None => None,
            }
        } else {
            None
        }
    }

    proof fn lemma_parse_encoding(b: Seq<u8>, pos: int, m: StreamDetailsView) {
        let list = counted_encoding::<Topic>(m.topics);
        let last = name_field(m.name) + list;
        let tail = spec_u64_to_le_bytes(m.created_at) + last;
        lemma_u32_then(b, pos, m.id, tail);
        lemma_u64_then(b, pos + 4, m.created_at, last);
        lemma_name_then(b, pos + 12, m.name, list);
        assert(list + Seq::<u8>::empty() =~= list);
        lemma_counted_then::<Topic>(b, pos + 12 + name_field(m.name).len(), m.topics, Seq::empty());
    }

    proof fn lemma_encoding_parse(b: Seq<u8>, pos: int) {
        let (m, end) = Self::parse_at(b, pos).unwrap();
        let mid = name_at(b, pos + 12).unwrap().1;
        let list = counted_encoding::<Topic>(m.topics);
        let last = name_field(m.name) + list;
        let tail = spec_u64_to_le_bytes(m.created_at) + last;
        lemma_name_holds(b, pos + 12);
        assert(0 <= end <= b.len()) by {
            lemma_counted_end::<Topic>(b, mid);
        }
        lemma_holds_at_empty(b, end);
        lemma_counted_before::<Topic>(b, mid, Seq::empty());
        assert(list + Seq::<u8>::empty() =~= list);
        lemma_name_before(b, pos + 12, list);
        lemma_u64_before(b, pos + 4, last);
        lemma_u32_before(b, pos, tail);
    }

    fn is_fit(&self) -> (ok: bool) {
        name_is_fit(self.name.as_str()) && counted_is_fit(&self.topics)
    }

    fn put(&self, out: &mut Vec<u8>) {
        put_u32(out, self.id);
        put_u64(out, self.created_at);
        put_name(out, self.name.as_str());
        put_counted(out, &self.topics);
        assert(out@ =~= old(out)@ + Self::encoding(self@));
    }

    fn get(buf: &[u8], pos: usize) -> (r: Option<(Self, usize)>) {
        let id = match get_u32(buf, pos) {
            Some(id) => id,
            None => { return None; },
        };
        let created_at = match get_u64(buf, pos + 4) {
            Some(t) => t,
            None => { return None; },
        };
        match get_name(buf, pos + 12) {
            Some((name, mid)) => match get_counted::<Topic>(buf, mid) {
                Some((topics, end)) => Some((StreamDetails { id, created_at, name, topics }, end)),
                None => None,
            },
            None => None,
        }
    }
}

} // verus!
