use crate::error::{error_of_status, Error, STATUS_OK};
use crate::frame::{frame_fits, frame_of, frame_value, to_frame};
use crate::wire::{
    counted_at, counted_encoding, counted_fits, counted_is_fit, get_counted, get_name, get_u32,
    get_u64, lemma_counted_before, lemma_counted_end, lemma_counted_then,
    lemma_holds_at_empty, lemma_name_at, lemma_name_holds, lemma_u32_at, lemma_u32_before,
    lemma_u32_holds, lemma_u32_then, lemma_u64_before, lemma_u64_then, models, name_at,
    name_field, name_fits, name_is_fit, put_counted, put_name, put_u32, put_u64, u32_at, u64_at,
    Wire,
};
use vstd::bytes::*;
use vstd::prelude::*;

verus! {

/// The result of a command that gives nothing back: it takes no bytes.
pub struct Empty {}

impl View for Empty {
    type V = ();

    open spec fn view(&self) -> () {
        ()
    }
}

impl Wire for Empty {
    open spec fn fits(m: ()) -> bool {
        true
    }

    open spec fn encoding(m: ()) -> Seq<u8> {
        Seq::empty()
    }

    open spec fn parse_at(b: Seq<u8>, pos: int) -> Option<((), int)> {
        if 0 <= pos <= b.len() {
            Some(((), pos))
        } else {
            None
        }
    }

    proof fn lemma_parse_encoding(b: Seq<u8>, pos: int, m: ()) {
    }

    proof fn lemma_encoding_parse(b: Seq<u8>, pos: int) {
        lemma_holds_at_empty(b, pos);
    }

    fn is_fit(&self) -> (ok: bool) {
        true
    }

    fn put(&self, out: &mut Vec<u8>) {
        assert(out@ =~= old(out)@ + Self::encoding(self@));
    }

    fn get(buf: &[u8], pos: usize) -> (r: Option<(Self, usize)>) {
        if pos <= buf.len() {
            Some((Empty {  }, pos))
        } else {
            None
        }
    }
}

/// A list that travels as the number of its values, then the values.
pub struct Counted<T> {
    pub items: Vec<T>,
}

impl<T: Wire> View for Counted<T> {
    type V = Seq<T::V>;

    open spec fn view(&self) -> Seq<T::V> {
        models(self.items@)
    }
}

impl<T: Wire> Wire for Counted<T> {
    open spec fn fits(m: Seq<T::V>) -> bool {
        counted_fits::<T>(m)
    }

    open spec fn encoding(m: Seq<T::V>) -> Seq<u8> {
        counted_encoding::<T>(m)
    }

    open spec fn parse_at(b: Seq<u8>, pos: int) -> Option<(Seq<T::V>, int)> {
        counted_at::<T>(b, pos)
    }

    proof fn lemma_parse_encoding(b: Seq<u8>, pos: int, m: Seq<T::V>) {
        assert(counted_encoding::<T>(m) + Seq::<u8>::empty() =~= counted_encoding::<T>(m));
        lemma_counted_then::<T>(b, pos, m, Seq::empty());
    }

    proof fn lemma_encoding_parse(b: Seq<u8>, pos: int) {
        let (m, end) = counted_at::<T>(b, pos).unwrap();
        lemma_counted_end::<T>(b, pos);
        lemma_holds_at_empty(b, end);
        lemma_counted_before::<T>(b, pos, Seq::empty());
        assert(counted_encoding::<T>(m) + Seq::<u8>::empty() =~= counted_encoding::<T>(m));
    }

    fn is_fit(&self) -> (ok: bool) {
        counted_is_fit(&self.items)
    }

    fn put(&self, out: &mut Vec<u8>) {
        put_counted(out, &self.items);
    }

    fn get(buf: &[u8], pos: usize) -> (r: Option<(Self, usize)>) {
        match get_counted::<T>(buf, pos) {
            Some((items, end)) => Some((Counted { items }, end)),
            None => None,
        }
    }
}

/// The result of an append: the offset given to the first message and the
/// number of messages that were appended, which took consecutive offsets.
#[derive(Clone, Copy, Debug, PartialEq, Eq, Structural)]
pub struct Appended {
    pub first_offset: u64,
    pub count: u32,
}

impl View for Appended {
    type V = Appended;

    open spec fn view(&self) -> Appended {
        *self
    }
}

impl Wire for Appended {
    open spec fn fits(m: Appended) -> bool {
        true
    }

    /// The first offset in eight bytes, then the count in four.
    open spec fn encoding(m: Appended) -> Seq<u8> {
        spec_u64_to_le_bytes(m.first_offset) + spec_u32_to_le_bytes(m.count)
    }

    open spec fn parse_at(b: Seq<u8>, pos: int) -> Option<(Appended, int)> {
        if 0 <= pos && pos + 12 <= b.len() {
            Some((Appended { first_offset: u64_at(b, pos), count: u32_at(b, pos + 8) }, pos + 12))
        } else {
            None
        }
    }

    proof fn lemma_parse_encoding(b: Seq<u8>, pos: int, m: Appended) {
        lemma_auto_spec_u32_to_from_le_bytes();
        lemma_u64_then(b, pos, m.first_offset, spec_u32_to_le_bytes(m.count));
        lemma_u32_at(b, pos + 8, m.count);
    }

    proof fn lemma_encoding_parse(b: Seq<u8>, pos: int) {
        lemma_u32_holds(b, pos + 8);
        lemma_u64_before(b, pos, spec_u32_to_le_bytes(u32_at(b, pos + 8)));
    }

    fn is_fit(&self) -> (ok: bool) {
        true
    }

    fn put(&self, out: &mut Vec<u8>) {
        put_u64(out, self.first_offset);
        put_u32(out, self.count);
        assert(out@ =~= old(out)@ + Self::encoding(self@));
    }

    fn get(buf: &[u8], pos: usize) -> (r: Option<(Self, usize)>) {
        let first_offset = match get_u64(buf, pos) {
            Some(offset) => offset,
            None => { return None; },
        };
        match get_u32(buf, pos + 8) {
            Some(count) => Some((Appended { first_offset, count }, pos + 12)),
            None => None,
        }
    }
}

/// What the broker answers: the result of the command, or the error with a
/// message in words.
pub enum Response<T> {
    Done(T),
    Failed(Error, String),
}

/// What a `Response` stands for.
pub enum ResponseView<V> {
    Done(V),
    Failed(Error, Seq<char>),
}

impl<T: Wire> View for Response<T> {
    type V = ResponseView<T::V>;

    open spec fn view(&self) -> ResponseView<T::V> {
        match self {
            Response::Done(value) => ResponseView::Done(value@),
            Response::Failed(error, text) => ResponseView::Failed(*error, text@),
        }
    }
}

impl<T: Wire> Wire for Response<T> {
    open spec fn fits(m: ResponseView<T::V>) -> bool {
        match m {
            ResponseView::Done(value) => T::fits(value),
            ResponseView::Failed(_, text) => name_fits(text),
        }
    }

    /// The status in four bytes: `STATUS_OK` and then the result, or the
    /// status of the error and then its message as a name travels.
    open spec fn encoding(m: ResponseView<T::V>) -> Seq<u8> {
        match m {
            ResponseView::Done(value) => spec_u32_to_le_bytes(STATUS_OK) + T::encoding(value),
            ResponseView::Failed(error, text) => spec_u32_to_le_bytes(error.status())
                + name_field(text),
        }
    }

    open spec fn parse_at(b: Seq<u8>, pos: int) -> Option<(ResponseView<T::V>, int)> {
        if 0 <= pos && pos + 4 <= b.len() {
            if u32_at(b, pos) == STATUS_OK {
                match T::parse_at(b, pos + 4) {
                    Some((value, end)) => Some((ResponseView::Done(value), end)),
                    None => None,
                }
            } else {
                match error_of_status(u32_at(b, pos)) {
                    Some(error) => match name_at(b, pos + 4) {
                        Some((text, end)) => Some((ResponseView::Failed(error, text), end)),
                        None => None,
                    },
                    None => None,
                }
            }
        } else {
            None
        }
    }

    proof fn lemma_parse_encoding(b: Seq<u8>, pos: int, m: ResponseView<T::V>) {
        match m {
            ResponseView::Done(value) => {
                lemma_u32_then(b, pos, STATUS_OK, T::encoding(value));
                T::lemma_parse_encoding(b, pos + 4, value);
            },
            ResponseView::Failed(error, text) => {
                lemma_u32_then(b, pos, error.status(), name_field(text));
                lemma_name_at(b, pos + 4, text);
            },
        }
    }

    proof fn lemma_encoding_parse(b: Seq<u8>, pos: int) {
        let (m, end) = Self::parse_at(b, pos).unwrap();
        match m {
            ResponseView::Done(value) => {
                T::lemma_encoding_parse(b, pos + 4);
                lemma_u32_before(b, pos, T::encoding(value));
            },
            ResponseView::Failed(error, text) => {
                lemma_name_holds(b, pos + 4);
                lemma_u32_before(b, pos, name_field(text));
            },
        }
    }

    fn is_fit(&self) -> (ok: bool) {
        match self {
            Response::Done(value) => value.is_fit(),
            Response::Failed(_, text) => name_is_fit(text.as_str()),
        }
    }

    fn put(&self, out: &mut Vec<u8>) {
        match self {
            Response::Done(value) => {
                put_u32(out, STATUS_OK);
                value.put(out);
            },
            Response::Failed(error, text) => {
                put_u32(out, error.to_status());
                put_name(out, text.as_str());
            },
        }
        assert(out@ =~= old(out)@ + Self::encoding(self@));
    }

    fn get(buf: &[u8], pos: usize) -> (r: Option<(Self, usize)>) {
        let status = match get_u32(buf, pos) {
            Some(status) => status,
            None => { return None; },
        };
        if status == STATUS_OK {
            match T::get(buf, pos + 4) {
                Some((value, end)) => Some((Response::Done(value), end)),
                None => None,
            }
        } else {
            match Error::from_status(status) {
                Some(error) => match get_name(buf, pos + 4) {
                    Some((text, end)) => Some((Response::Failed(error, text), end)),
                    None => None,
                },
                None => None,
            }
        }
    }
}

/// The result that a response stands for, without the message.
pub open spec fn result_of<V>(m: ResponseView<V>) -> Result<V, Error> {
    match m {
        ResponseView::Done(value) => Ok(value),
        ResponseView::Failed(error, _) => Err(error),
    }
}

impl<T: Wire> Response<T> {
    /// The response that reports `error`, with the error's own message.
    pub fn failure(error: Error) -> (r: Response<T>)
        ensures
            r@ == ResponseView::<T::V>::Failed(error, error.message_spec()),
            <Response<T> as Wire>::fits(r@),
    {
        proof {
            error.lemma_message_fits();
        }
        Response::Failed(error, error.message())
    }

    /// The result that the response stands for, without the message.
    pub fn into_result(self) -> (r: Result<T, Error>)
        ensures
            match result_of(self@) {
                Ok(value) => r matches Ok(x) && x@ == value,
                Err(error) => r matches Err(e) && e == error,
            },
    {
        match self {
            Response::Done(value) => Ok(value),
            Response::Failed(error, _) => Err(error),
        }
    }
}

/// The response that reports `error`, with the error's own message.
pub open spec fn failed<V>(error: Error) -> ResponseView<V> {
    ResponseView::Failed(error, error.message_spec())
}

/// The response that a result stands for: the result itself, or the error
/// with its own message.
pub open spec fn answer<V>(result: Result<V, Error>) -> ResponseView<V> {
    match result {
        Ok(value) => ResponseView::Done(value),
        Err(error) => failed(error),
    }
}

/// The frame that answers with a response: that of the response where it
/// can travel, else that of a `ProtocolError`.
pub open spec fn reply_of<T: Wire>(m: ResponseView<T::V>) -> Seq<u8> {
    if frame_fits::<Response<T>>(m) {
        frame_of::<Response<T>>(m)
    } else {
        frame_of::<Response<T>>(failed(Error::ProtocolError))
    }
}

/// The response that reports an error can always travel.
pub proof fn lemma_failure_travels<T: Wire>(error: Error)
    ensures
        frame_fits::<Response<T>>(failed::<T::V>(error)),
        reply_of::<T>(failed::<T::V>(error)) == frame_of::<Response<T>>(failed::<T::V>(error)),
{
    error.lemma_message_fits();
    lemma_auto_spec_u32_to_from_le_bytes();
}

/// The frame that answers with a response.
pub fn reply<T: Wire>(response: &Response<T>) -> (bytes: Vec<u8>)
    ensures
        bytes@ == reply_of::<T>(response@),
{
    match to_frame(response) {
        Some(bytes) => bytes,
        None => {
            proof {
                lemma_failure_travels::<T>(Error::ProtocolError);
            }
            frame_value(&Response::<T>::failure(Error::ProtocolError))
        },
    }
}

/// The frame that answers with a result.
pub fn reply_result<T: Wire>(result: Result<T, Error>) -> (bytes: Vec<u8>)
    ensures
        bytes@ == reply_of::<T>(
            answer(
                match result {
                    Ok(value) => Ok(value@),
                    Err(error) => Err(error),
                },
            ),
        ),
{
    match result {
        Ok(value) => reply(&Response::Done(value)),
        Err(error) => reply(&Response::<T>::failure(error)),
    }
}

} // verus!
