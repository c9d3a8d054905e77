use vstd::bytes::*;
use vstd::prelude::*;
use vstd::slice::*;
use vstd::utf8::*;

verus! {

/// Most bytes that the UTF-8 form of a name may take: its length travels in one byte.
pub const MAX_NAME_BYTES: usize = 255;

/// Whether `bytes` stands in `b` from position `pos` on.
pub open spec fn holds_at(b: Seq<u8>, pos: int, bytes: Seq<u8>) -> bool {
    &&& 0 <= pos
    &&& pos + bytes.len() <= b.len()
    &&& b.subrange(pos, pos + bytes.len()) == bytes
}

/// The 32-bit little-endian integer that `b` holds at `pos`.
pub open spec fn u32_at(b: Seq<u8>, pos: int) -> u32 {
    spec_u32_from_le_bytes(b.subrange(pos, pos + 4))
}

/// The 64-bit little-endian integer that `b` holds at `pos`.
pub open spec fn u64_at(b: Seq<u8>, pos: int) -> u64 {
    spec_u64_from_le_bytes(b.subrange(pos, pos + 8))
}

/// Whether a name is short enough to travel.
pub open spec fn name_fits(name: Seq<char>) -> bool {
    encode_utf8(name).len() <= MAX_NAME_BYTES
}

/// A name on the wire: one byte of length, then the name in UTF-8.
pub open spec fn name_field(name: Seq<char>) -> Seq<u8> {
    seq![encode_utf8(name).len() as u8] + encode_utf8(name)
}

/// The name that `b` holds at `pos` and the position behind it, if a whole
/// name in valid UTF-8 stands there.
pub open spec fn name_at(b: Seq<u8>, pos: int) -> Option<(Seq<char>, int)> {
    if 0 <= pos < b.len() && pos + 1 + b[pos] <= b.len() && valid_utf8(
        b.subrange(pos + 1, pos + 1 + b[pos]),
    ) {
        Some((decode_utf8(b.subrange(pos + 1, pos + 1 + b[pos])), pos + 1 + b[pos]))
    } else {
        None
    }
}

/// Two sequences that stand one behind the other can be found again one by one.
pub proof fn lemma_holds_at_split(b: Seq<u8>, pos: int, first: Seq<u8>, second: Seq<u8>)
    requires
        holds_at(b, pos, first + second),
    ensures
        holds_at(b, pos, first),
        holds_at(b, pos + first.len(), second),
{
    let whole = first + second;
    assert(b.subrange(pos, pos + first.len()) =~= whole.subrange(0, first.len() as int));
    assert(whole.subrange(0, first.len() as int) =~= first);
    assert(b.subrange(pos + first.len(), pos + first.len() + second.len()) =~= whole.subrange(
        first.len() as int,
        whole.len() as int,
    ));
    assert(whole.subrange(first.len() as int, whole.len() as int) =~= second);
}

/// Two sequences found one behind the other stand there as one.
pub proof fn lemma_holds_at_join(b: Seq<u8>, pos: int, first: Seq<u8>, second: Seq<u8>)
    requires
        holds_at(b, pos, first),
        holds_at(b, pos + first.len(), second),
    ensures
        holds_at(b, pos, first + second),
{
    let whole = first + second;
    assert(b.subrange(pos, pos + whole.len()) =~= b.subrange(pos, pos + first.len())
        + b.subrange(pos + first.len(), pos + first.len() + second.len()));
}

/// An integer written little-endian is read back as itself.
pub proof fn lemma_u32_at(b: Seq<u8>, pos: int, x: u32)
    requires
        holds_at(b, pos, spec_u32_to_le_bytes(x)),
    ensures
        u32_at(b, pos) == x,
{
    lemma_auto_spec_u32_to_from_le_bytes();
}

/// Four bytes are the little-endian form of the integer read from them.
pub proof fn lemma_u32_holds(b: Seq<u8>, pos: int)
    requires
        0 <= pos,
        pos + 4 <= b.len(),
    ensures
        holds_at(b, pos, spec_u32_to_le_bytes(u32_at(b, pos))),
        spec_u32_to_le_bytes(u32_at(b, pos)).len() == 4,
{
    lemma_auto_spec_u32_to_from_le_bytes();
}

/// An integer written little-endian is read back as itself.
pub proof fn lemma_u64_at(b: Seq<u8>, pos: int, x: u64)
    requires
        holds_at(b, pos, spec_u64_to_le_bytes(x)),
    ensures
        u64_at(b, pos) == x,
{
    lemma_auto_spec_u64_to_from_le_bytes();
}

/// Eight bytes are the little-endian form of the integer read from them.
pub proof fn lemma_u64_holds(b: Seq<u8>, pos: int)
    requires
        0 <= pos,
        pos + 8 <= b.len(),
    ensures
        holds_at(b, pos, spec_u64_to_le_bytes(u64_at(b, pos))),
        spec_u64_to_le_bytes(u64_at(b, pos)).len() == 8,
{
    lemma_auto_spec_u64_to_from_le_bytes();
}

/// A name written as a field is read back as itself.
pub proof fn lemma_name_at(b: Seq<u8>, pos: int, name: Seq<char>)
    requires
        name_fits(name),
        holds_at(b, pos, name_field(name)),
    ensures
        name_at(b, pos) == Some((name, pos + name_field(name).len())),
{
    let bytes = encode_utf8(name);
    lemma_holds_at_split(b, pos, seq![bytes.len() as u8], bytes);
    assert(b.subrange(pos, pos + 1)[0] == b[pos]);
    assert(b[pos] == bytes.len());
    encode_utf8_valid_utf8(name);
    encode_utf8_decode_utf8(name);
}

/// What was read as a name stands there as the field of that name.
pub proof fn lemma_name_holds(b: Seq<u8>, pos: int)
    requires
        name_at(b, pos) is Some,
    ensures
        name_fits(name_at(b, pos).unwrap().0),
        holds_at(b, pos, name_field(name_at(b, pos).unwrap().0)),
        name_at(b, pos).unwrap().1 == pos + name_field(name_at(b, pos).unwrap().0).len(),
{
    let bytes = b.subrange(pos + 1, pos + 1 + b[pos]);
    decode_utf8_encode_utf8(bytes);
    assert(holds_at(b, pos, seq![b[pos]])) by {
        assert(b.subrange(pos, pos + 1) =~= seq![b[pos]]);
    }
    lemma_holds_at_join(b, pos, seq![b[pos]], bytes);
}

/// Appends `bytes` to `out`.
pub fn put_bytes(out: &mut Vec<u8>, bytes: &[u8])
    ensures
        final(out)@ == old(out)@ + bytes@,
{
    let mut i: usize = 0;
    while i < bytes.len()
        invariant
            i <= bytes@.len(),
            out@ == old(out)@ + bytes@.subrange(0, i as int),
        decreases bytes@.len() - i,
    {
        out.push(bytes[i]);
        i += 1;
        assert(out@ =~= old(out)@ + bytes@.subrange(0, i as int));
    }
    assert(bytes@.subrange(0, i as int) =~= bytes@);
}

/// Appends `x` to `out`, little-endian.
pub fn put_u32(out: &mut Vec<u8>, x: u32)
    ensures
        final(out)@ == old(out)@ + spec_u32_to_le_bytes(x),
{
    let bytes = u32_to_le_bytes(x);
    put_bytes(out, bytes.as_slice());
}

/// Appends `x` to `out`, little-endian.
pub fn put_u64(out: &mut Vec<u8>, x: u64)
    ensures
        final(out)@ == old(out)@ + spec_u64_to_le_bytes(x),
{
    let bytes = u64_to_le_bytes(x);
    put_bytes(out, bytes.as_slice());
}

/// Appends a name to `out` as a field.
pub fn put_name(out: &mut Vec<u8>, name: &str)
    requires
        name_fits(name@),
    ensures
        final(out)@ == old(out)@ + name_field(name@),
{
    let bytes = name.as_bytes();
    out.push(bytes.len() as u8);
    put_bytes(out, bytes);
    assert(out@ =~= old(out)@ + name_field(name@));
}

/// Reads the integer at `pos`, if four bytes stand there.
pub fn get_u32(buf: &[u8], pos: usize) -> (r: Option<u32>)
    ensures
        r == (if pos + 4 <= buf@.len() {
            Some(u32_at(buf@, pos as int))
        } else {
            None
        }),
        r is Some ==> pos + 4 <= usize::MAX,
{
    if buf.len() < 4 || pos > buf.len() - 4 {
        return None;
    }
    Some(u32_from_le_bytes(slice_subrange(buf, pos, pos + 4)))
}

/// Reads the integer at `pos`, if eight bytes stand there.
pub fn get_u64(buf: &[u8], pos: usize) -> (r: Option<u64>)
    ensures
        r == (if pos + 8 <= buf@.len() {
            Some(u64_at(buf@, pos as int))
        } else {
            None
        }),
        r is Some ==> pos + 8 <= usize::MAX,
{
    if buf.len() < 8 || pos > buf.len() - 8 {
        return None;
    }
    Some(u64_from_le_bytes(slice_subrange(buf, pos, pos + 8)))
}

/// Calls `String::from_utf8`: the string that the bytes spell in UTF-8, and
/// nothing where they are no valid UTF-8.
#[verifier::external_body]
fn string_from_utf8(bytes: Vec<u8>) -> (r: Option<String>)
    ensures
        r is Some <==> valid_utf8(bytes@),
        r matches Some(s) ==> s@ == decode_utf8(bytes@),
{
    String::from_utf8(bytes).ok()
}

/// Reads the name at `pos` and gives the position behind it, if a whole name
/// in valid UTF-8 stands there.
pub fn get_name(buf: &[u8], pos: usize) -> (r: Option<(String, usize)>)
    ensures
        r is Some <==> name_at(buf@, pos as int) is Some,
        r matches Some((name, end)) ==> name_at(buf@, pos as int) == Some((name@, end as int)),
{
    if pos >= buf.len() {
        return None;
    }
    let len: usize = buf[pos] as usize;
    if len > buf.len() - pos - 1 {
        return None;
    }
    let bytes = slice_to_vec(slice_subrange(buf, pos + 1, pos + 1 + len));
    match string_from_utf8(bytes) {
        Some(name) => Some((name, pos + 1 + len)),
        None => None,
    }
}

/// A value with a place in the binary layout: what it looks like on the
/// wire, how it is written and how it is read back.
pub trait Wire: View + Sized {
    /// Whether the value is small enough to be written.
    spec fn fits(m: Self::V) -> bool;

    /// The bytes that stand for the value.
    spec fn encoding(m: Self::V) -> Seq<u8>;

    /// The value that `b` holds at `pos` and the position behind it, if a
    /// whole value stands there.
    spec fn parse_at(b: Seq<u8>, pos: int) -> Option<(Self::V, int)>;

    /// What was written is read back as it was.
    proof fn lemma_parse_encoding(b: Seq<u8>, pos: int, m: Self::V)
        requires
            Self::fits(m),
            holds_at(b, pos, Self::encoding(m)),
        ensures
            Self::parse_at(b, pos) == Some((m, pos + Self::encoding(m).len())),
    ;

    /// What was read stands there as the encoding of the value read.
    proof fn lemma_encoding_parse(b: Seq<u8>, pos: int)
        requires
            Self::parse_at(b, pos) is Some,
        ensures
            Self::fits(Self::parse_at(b, pos).unwrap().0),
            holds_at(b, pos, Self::encoding(Self::parse_at(b, pos).unwrap().0)),
            Self::parse_at(b, pos).unwrap().1 == pos + Self::encoding(
                Self::parse_at(b, pos).unwrap().0,
            ).len(),
    ;

    /// Tests whether the value is small enough to be written.
    fn is_fit(&self) -> (ok: bool)
        ensures
            ok == Self::fits(self@),
    ;

    /// Appends the value's encoding to `out`.
    fn put(&self, out: &mut Vec<u8>)
        requires
            Self::fits(self@),
        ensures
            final(out)@ == old(out)@ + Self::encoding(self@),
    ;

    /// Reads the value at `pos` and gives the position behind it.
    fn get(buf: &[u8], pos: usize) -> (r: Option<(Self, usize)>)
        ensures
            r is Some <==> Self::parse_at(buf@, pos as int) is Some,
            r matches Some((v, end)) ==> Self::parse_at(buf@, pos as int) == Some(
                (v@, end as int),
            ),
    ;
}

/// The models of the values in `items`, in their order.
pub open spec fn models<T: Wire>(items: Seq<T>) -> Seq<T::V> {
    Seq::new(items.len(), |i: int| items[i]@)
}

/// Whether every value of `items` fits.
pub open spec fn all_fit<T: Wire>(items: Seq<T::V>) -> bool {
    forall|i: int| 0 <= i < items.len() ==> T::fits(#[trigger] items[i])
}

/// The encodings of `items`, one behind the other.
pub open spec fn list_encoding<T: Wire>(items: Seq<T::V>) -> Seq<u8>
    decreases items.len(),
{
    if items.len() == 0 {
        Seq::empty()
    } else {
        list_encoding::<T>(items.drop_last()) + T::encoding(items.last())
    }
}

/// The `n` values that stand in `b` from `pos` on, one behind the other, and
/// the position behind the last.
pub open spec fn list_at<T: Wire>(b: Seq<u8>, pos: int, n: nat) -> Option<(Seq<T::V>, int)>
    decreases n,
{
    if n == 0 {
        Some((Seq::empty(), pos))
    } else {
        match list_at::<T>(b, pos, (n - 1) as nat) {
            Some((items, mid)) => match T::parse_at(b, mid) {
                Some((item, end)) => Some((items.push(item), end)),
                None => None,
            },
            None => None,
        }
    }
}

/// A list that was written is read back as it was.
pub proof fn lemma_list_at_encoding<T: Wire>(b: Seq<u8>, pos: int, items: Seq<T::V>)
    requires
        all_fit::<T>(items),
        holds_at(b, pos, list_encoding::<T>(items)),
    ensures
        list_at::<T>(b, pos, items.len()) == Some(
            (items, pos + list_encoding::<T>(items).len()),
        ),
    decreases items.len(),
{
    if items.len() == 0 {
    } else {
        let front = items.drop_last();
        lemma_holds_at_split(b, pos, list_encoding::<T>(front), T::encoding(items.last()));
        lemma_list_at_encoding::<T>(b, pos, front);
        T::lemma_parse_encoding(b, pos + list_encoding::<T>(front).len(), items.last());
        assert(front.push(items.last()) =~= items);
    }
}

/// A list that was read stands there as the encoding of the values read:
/// there are `n` of them and each fits.
pub proof fn lemma_list_encoding_at<T: Wire>(b: Seq<u8>, pos: int, n: nat)
    requires
        0 <= pos <= b.len(),
        list_at::<T>(b, pos, n) is Some,
    ensures
        list_at::<T>(b, pos, n).unwrap().0.len() == n,
        all_fit::<T>(list_at::<T>(b, pos, n).unwrap().0),
        holds_at(b, pos, list_encoding::<T>(list_at::<T>(b, pos, n).unwrap().0)),
        list_at::<T>(b, pos, n).unwrap().1 == pos + list_encoding::<T>(
            list_at::<T>(b, pos, n).unwrap().0,
        ).len(),
    decreases n,
{
    if n == 0 {
        assert(b.subrange(pos, pos) =~= Seq::<u8>::empty());
    } else {
        lemma_list_encoding_at::<T>(b, pos, (n - 1) as nat);
        let (front, mid) = list_at::<T>(b, pos, (n - 1) as nat).unwrap();
        T::lemma_encoding_parse(b, mid);
        let (item, end) = T::parse_at(b, mid).unwrap();
        let items = front.push(item);
        assert(items.drop_last() =~= front);
        lemma_holds_at_join(b, pos, list_encoding::<T>(front), T::encoding(item));
    }
}

/// Appends the encodings of `items` to `out`, one behind the other.
pub fn put_list<T: Wire>(out: &mut Vec<u8>, items: &Vec<T>)
    requires
        all_fit::<T>(models(items@)),
    ensures
        final(out)@ == old(out)@ + list_encoding::<T>(models(items@)),
{
    let mut i: usize = 0;
    while i < items.len()
        invariant
            i <= items@.len(),
            all_fit::<T>(models(items@)),
            out@ == old(out)@ + list_encoding::<T>(models(items@).take(i as int)),
        decreases items@.len() - i,
    {
        proof {
            let next = models(items@).take(i + 1);
            assert(next.drop_last() =~= models(items@).take(i as int));
            assert(next.last() == items@[i as int]@);
            assert(T::fits(models(items@)[i as int]));
        }
        items[i].put(out);
        i += 1;
        assert(out@ =~= old(out)@ + list_encoding::<T>(models(items@).take(i as int)));
    }
    assert(models(items@).take(i as int) =~= models(items@));
}

/// Reads `n` values from `pos` on and gives the position behind the last.
pub fn get_list<T: Wire>(buf: &[u8], pos: usize, n: u32) -> (r: Option<(Vec<T>, usize)>)
    ensures
        r is Some <==> list_at::<T>(buf@, pos as int, n as nat) is Some,
        r matches Some((items, end)) ==> list_at::<T>(buf@, pos as int, n as nat) == Some(
            (models(items@), end as int),
        ),
{
    let mut items: Vec<T> = Vec::new();
    let mut at: usize = pos;
    let mut i: u32 = 0;
    while i < n
        invariant
            i <= n,
            list_at::<T>(buf@, pos as int, i as nat) == Some((models(items@), at as int)),
        decreases n - i,
    {
        match T::get(buf, at) {
            Some((item, end)) => {
                proof {
                    assert(models(items@.push(item)) =~= models(items@).push(item@));
                }
                items.push(item);
                at = end;
            },
            None => {
                proof {
                    lemma_list_at_none::<T>(buf@, pos as int, (i + 1) as nat, n as nat);
                }
                return None;
            },
        }
        i += 1;
    }
    Some((items, at))
}

/// Where the first `k` values cannot be read, no more of them can.
pub proof fn lemma_list_at_none<T: Wire>(b: Seq<u8>, pos: int, k: nat, n: nat)
    requires
        k <= n,
        list_at::<T>(b, pos, k) is None,
    ensures
        list_at::<T>(b, pos, n) is None,
    decreases n,
{
    if k < n {
        lemma_list_at_none::<T>(b, pos, k, (n - 1) as nat);
    }
}

/// An integer written before other bytes is read back, and the other bytes
/// stand behind it.
pub proof fn lemma_u32_then(b: Seq<u8>, pos: int, x: u32, rest: Seq<u8>)
    requires
        holds_at(b, pos, spec_u32_to_le_bytes(x) + rest),
    ensures
        pos + 4 <= b.len(),
        u32_at(b, pos) == x,
        holds_at(b, pos + 4, rest),
        (spec_u32_to_le_bytes(x) + rest).len() == 4 + rest.len(),
{
    lemma_auto_spec_u32_to_from_le_bytes();
    lemma_holds_at_split(b, pos, spec_u32_to_le_bytes(x), rest);
}

/// Four bytes and what stands behind them are the integer read from them,
/// written before the rest.
pub proof fn lemma_u32_before(b: Seq<u8>, pos: int, rest: Seq<u8>)
    requires
        0 <= pos,
        holds_at(b, pos + 4, rest),
    ensures
        holds_at(b, pos, spec_u32_to_le_bytes(u32_at(b, pos)) + rest),
        (spec_u32_to_le_bytes(u32_at(b, pos)) + rest).len() == 4 + rest.len(),
{
    lemma_u32_holds(b, pos);
    lemma_holds_at_join(b, pos, spec_u32_to_le_bytes(u32_at(b, pos)), rest);
}

/// An integer written before other bytes is read back, and the other bytes
/// stand behind it.
pub proof fn lemma_u64_then(b: Seq<u8>, pos: int, x: u64, rest: Seq<u8>)
    requires
        holds_at(b, pos, spec_u64_to_le_bytes(x) + rest),
    ensures
        pos + 8 <= b.len(),
        u64_at(b, pos) == x,
        holds_at(b, pos + 8, rest),
        (spec_u64_to_le_bytes(x) + rest).len() == 8 + rest.len(),
{
    lemma_auto_spec_u64_to_from_le_bytes();
    lemma_holds_at_split(b, pos, spec_u64_to_le_bytes(x), rest);
}

/// Eight bytes and what stands behind them are the integer read from them,
/// written before the rest.
pub proof fn lemma_u64_before(b: Seq<u8>, pos: int, rest: Seq<u8>)
    requires
        0 <= pos,
        holds_at(b, pos + 8, rest),
    ensures
        holds_at(b, pos, spec_u64_to_le_bytes(u64_at(b, pos)) + rest),
        (spec_u64_to_le_bytes(u64_at(b, pos)) + rest).len() == 8 + rest.len(),
{
    lemma_u64_holds(b, pos);
    lemma_holds_at_join(b, pos, spec_u64_to_le_bytes(u64_at(b, pos)), rest);
}

/// A name written before other bytes is read back, and the other bytes
/// stand behind it.
pub proof fn lemma_name_then(b: Seq<u8>, pos: int, name: Seq<char>, rest: Seq<u8>)
    requires
        name_fits(name),
        holds_at(b, pos, name_field(name) + rest),
    ensures
        name_at(b, pos) == Some((name, pos + name_field(name).len())),
        holds_at(b, pos + name_field(name).len(), rest),
{
    lemma_holds_at_split(b, pos, name_field(name), rest);
    lemma_name_at(b, pos, name);
}

/// A name and what stands behind it are the field of the name read, written
/// before the rest.
pub proof fn lemma_name_before(b: Seq<u8>, pos: int, rest: Seq<u8>)
    requires
        name_at(b, pos) is Some,
        holds_at(b, name_at(b, pos).unwrap().1, rest),
    ensures
        name_fits(name_at(b, pos).unwrap().0),
        holds_at(b, pos, name_field(name_at(b, pos).unwrap().0) + rest),
{
    lemma_name_holds(b, pos);
    lemma_holds_at_join(b, pos, name_field(name_at(b, pos).unwrap().0), rest);
}

/// The empty sequence stands at every position of `b`.
pub proof fn lemma_holds_at_empty(b: Seq<u8>, pos: int)
    requires
        0 <= pos <= b.len(),
    ensures
        holds_at(b, pos, Seq::<u8>::empty()),
{
    assert(b.subrange(pos, pos) =~= Seq::<u8>::empty());
}

/// Whether a list is short enough for its count to travel, and each value fits.
pub open spec fn counted_fits<T: Wire>(items: Seq<T::V>) -> bool {
    items.len() <= u32::MAX && all_fit::<T>(items)
}

/// A list on the wire: the number of values, then the values.
pub open spec fn counted_encoding<T: Wire>(items: Seq<T::V>) -> Seq<u8> {
    spec_u32_to_le_bytes(items.len() as u32) + list_encoding::<T>(items)
}

/// The list that `b` holds at `pos` and the position behind it, if a count
/// and that many values stand there.
pub open spec fn counted_at<T: Wire>(b: Seq<u8>, pos: int) -> Option<(Seq<T::V>, int)> {
    if 0 <= pos && pos + 4 <= b.len() {
        list_at::<T>(b, pos + 4, u32_at(b, pos) as nat)
    } else {
        None
    }
}

/// A counted list written before other bytes is read back, and the other
/// bytes stand behind it.
pub proof fn lemma_counted_then<T: Wire>(b: Seq<u8>, pos: int, items: Seq<T::V>, rest: Seq<u8>)
    requires
        counted_fits::<T>(items),
        holds_at(b, pos, counted_encoding::<T>(items) + rest),
    ensures
        counted_at::<T>(b, pos) == Some((items, pos + counted_encoding::<T>(items).len())),
        holds_at(b, pos + counted_encoding::<T>(items).len(), rest),
{
    lemma_holds_at_split(b, pos, counted_encoding::<T>(items), rest);
    lemma_u32_then(b, pos, items.len() as u32, list_encoding::<T>(items));
    lemma_list_at_encoding::<T>(b, pos + 4, items);
}

/// A counted list and what stands behind it are the encoding of the list
/// read, written before the rest.
pub proof fn lemma_counted_before<T: Wire>(b: Seq<u8>, pos: int, rest: Seq<u8>)
    requires
        counted_at::<T>(b, pos) is Some,
        holds_at(b, counted_at::<T>(b, pos).unwrap().1, rest),
    ensures
        counted_fits::<T>(counted_at::<T>(b, pos).unwrap().0),
        holds_at(b, pos, counted_encoding::<T>(counted_at::<T>(b, pos).unwrap().0) + rest),
        counted_at::<T>(b, pos).unwrap().1 == pos + counted_encoding::<T>(
            counted_at::<T>(b, pos).unwrap().0,
        ).len(),
        counted_encoding::<T>(counted_at::<T>(b, pos).unwrap().0).len() >= 4,
{
    let n = u32_at(b, pos) as nat;
    lemma_list_encoding_at::<T>(b, pos + 4, n);
    let items = counted_at::<T>(b, pos).unwrap().0;
    lemma_u32_before(b, pos, list_encoding::<T>(items));
    lemma_holds_at_join(b, pos, counted_encoding::<T>(items), rest);
}

/// Appends a list to `out`: the number of values, then the values.
pub fn put_counted<T: Wire>(out: &mut Vec<u8>, items: &Vec<T>)
    requires
        counted_fits::<T>(models(items@)),
    ensures
        final(out)@ == old(out)@ + counted_encoding::<T>(models(items@)),
{
    put_u32(out, items.len() as u32);
    put_list(out, items);
    assert(out@ =~= old(out)@ + counted_encoding::<T>(models(items@)));
}

/// Reads the counted list at `pos` and gives the position behind it.
pub fn get_counted<T: Wire>(buf: &[u8], pos: usize) -> (r: Option<(Vec<T>, usize)>)
    ensures
        r is Some <==> counted_at::<T>(buf@, pos as int) is Some,
        r matches Some((items, end)) ==> counted_at::<T>(buf@, pos as int) == Some(
            (models(items@), end as int),
        ),
{
    match get_u32(buf, pos) {
        Some(n) => get_list(buf, pos + 4, n),
        None => None,
    }
}

/// A list ends inside the bytes it was read from.
pub proof fn lemma_list_end<T: Wire>(b: Seq<u8>, pos: int, n: nat)
    requires
        0 <= pos <= b.len(),
        list_at::<T>(b, pos, n) is Some,
    ensures
        pos <= list_at::<T>(b, pos, n).unwrap().1 <= b.len(),
{
    lemma_list_encoding_at::<T>(b, pos, n);
}

/// A counted list ends inside the bytes it was read from.
pub proof fn lemma_counted_end<T: Wire>(b: Seq<u8>, pos: int)
    requires
        counted_at::<T>(b, pos) is Some,
    ensures
        pos + 4 <= counted_at::<T>(b, pos).unwrap().1 <= b.len(),
{
    lemma_list_end::<T>(b, pos + 4, u32_at(b, pos) as nat);
}

/// Tests whether a name is short enough to travel.
pub fn name_is_fit(name: &str) -> (ok: bool)
    ensures
        ok == name_fits(name@),
{
    name.as_bytes().len() <= MAX_NAME_BYTES
}

/// Tests whether a list is short enough for its count to travel, and each
/// value fits.
pub fn counted_is_fit<T: Wire>(items: &Vec<T>) -> (ok: bool)
    ensures
        ok == counted_fits::<T>(models(items@)),
{
    if items.len() > u32::MAX as usize {
        return false;
    }
    let mut i: usize = 0;
    while i < items.len()
        invariant
            i <= items@.len(),
            forall|k: int| 0 <= k < i ==> T::fits(#[trigger] models(items@)[k]),
        decreases items@.len() - i,
    {
        if !items[i].is_fit() {
            assert(!T::fits(models(items@)[i as int]));
            return false;
        }
        i += 1;
    }
    true
}

/// The encoding of two lists, one behind the other, is that of the two
/// joined.
pub proof fn lemma_list_encoding_concat<T: Wire>(first: Seq<T::V>, second: Seq<T::V>)
    ensures
        list_encoding::<T>(first + second) == list_encoding::<T>(first) + list_encoding::<T>(
            second,
        ),
    decreases second.len(),
{
    if second.len() == 0 {
        assert(first + second =~= first);
        assert(list_encoding::<T>(first) + list_encoding::<T>(second) =~= list_encoding::<T>(
            first,
        ));
    } else {
        lemma_list_encoding_concat::<T>(first, second.drop_last());
        assert((first + second).drop_last() =~= first + second.drop_last());
        assert((first + second).last() == second.last());
        assert((list_encoding::<T>(first) + list_encoding::<T>(second.drop_last()))
            + T::encoding(second.last()) =~= list_encoding::<T>(first) + (list_encoding::<T>(
            second.drop_last(),
        ) + T::encoding(second.last())));
    }
}

/// A list with one more value is encoded as the list, then the value.
pub proof fn lemma_list_encoding_push<T: Wire>(items: Seq<T::V>, item: T::V)
    ensures
        list_encoding::<T>(items.push(item)) == list_encoding::<T>(items) + T::encoding(item),
{
    assert(items.push(item).drop_last() =~= items);
}

/// The longer the part of a list, the longer its encoding.
pub proof fn lemma_list_encoding_grows<T: Wire>(items: Seq<T::V>, i: int, j: int)
    requires
        0 <= i <= j <= items.len(),
    ensures
        list_encoding::<T>(items.take(i)).len() <= list_encoding::<T>(items.take(j)).len(),
{
    assert(items.take(j) =~= items.take(i) + items.subrange(i, j));
    lemma_list_encoding_concat::<T>(items.take(i), items.subrange(i, j));
}

/// In the encoding of a list, each value stands where the values before it
/// end, and is read back from there.
pub proof fn lemma_list_item_at<T: Wire>(items: Seq<T::V>, i: int)
    requires
        0 <= i < items.len(),
        all_fit::<T>(items),
    ensures
        T::parse_at(list_encoding::<T>(items), list_encoding::<T>(items.take(i)).len() as int)
            == Some((items[i], list_encoding::<T>(items.take(i + 1)).len() as int)),
{
    let b = list_encoding::<T>(items);
    let front = items.take(i + 1);
    let back = items.skip(i + 1);
    assert(items =~= front + back);
    lemma_list_encoding_concat::<T>(front, back);
    assert(front.drop_last() =~= items.take(i));
    assert(front.last() == items[i]);
    assert(b.subrange(0, b.len() as int) =~= b);
    lemma_holds_at_split(b, 0, list_encoding::<T>(front), list_encoding::<T>(back));
    lemma_holds_at_split(b, 0, list_encoding::<T>(items.take(i)), T::encoding(items[i]));
    T::lemma_parse_encoding(b, list_encoding::<T>(items.take(i)).len() as int, items[i]);
}

} // verus!
