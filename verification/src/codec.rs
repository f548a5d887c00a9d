//! Length-prefix primitives of the DAP wire format.
//!
//! Every message is a sequence of fixed-width big-endian integers, raw byte
//! strings, and byte strings prefixed by their length as an unsigned 8-, 16- or
//! 32-bit integer. Each primitive comes with a specification-level encoder and
//! decoder; the executable functions are proved to match them exactly.

use vstd::prelude::*;

verus! {

/// Errors surfaced by the wire codec.
#[derive(Clone, Copy, Debug, PartialEq, Eq, Structural)]
pub enum CodecError {
    /// The input ended before the field could be read in full.
    ShortRead,
    /// A tag or discriminant had no defined meaning.
    UnexpectedValue,
    /// A payload was too long for its length prefix.
    LengthOverflow,
}

/// The encoding of an 8-bit integer: the byte itself.
pub open spec fn enc_u8(x: u8) -> Seq<u8> {
    seq![x]
}

/// The big-endian encoding of a 16-bit integer.
pub open spec fn enc_u16(x: u16) -> Seq<u8> {
    seq![(x / 0x100) as u8, (x % 0x100) as u8]
}

/// The big-endian encoding of a 32-bit integer.
pub open spec fn enc_u32(x: u32) -> Seq<u8> {
    seq![
        ((x / 0x1000000) % 0x100) as u8,
        ((x / 0x10000) % 0x100) as u8,
        ((x / 0x100) % 0x100) as u8,
        (x % 0x100) as u8,
    ]
}

/// The big-endian encoding of a 64-bit integer.
pub open spec fn enc_u64(x: u64) -> Seq<u8> {
    seq![
        ((x / 0x100000000000000) % 0x100) as u8,
        ((x / 0x1000000000000) % 0x100) as u8,
        ((x / 0x10000000000) % 0x100) as u8,
        ((x / 0x100000000) % 0x100) as u8,
        ((x / 0x1000000) % 0x100) as u8,
        ((x / 0x10000) % 0x100) as u8,
        ((x / 0x100) % 0x100) as u8,
        (x % 0x100) as u8,
    ]
}

/// Read one byte; on success, return it with the remaining input.
pub open spec fn dec_u8(s: Seq<u8>) -> Result<(u8, Seq<u8>), CodecError> {
    if s.len() >= 1 {
        Ok((s[0], s.skip(1)))
    } else {
        Err(CodecError::ShortRead)
    }
}

/// Read a 16-bit big-endian integer.
pub open spec fn dec_u16(s: Seq<u8>) -> Result<(u16, Seq<u8>), CodecError> {
    if s.len() >= 2 {
        Ok(((s[0] as u16 * 0x100 + s[1] as u16) as u16, s.skip(2)))
    } else {
        Err(CodecError::ShortRead)
    }
}

/// Read a 32-bit big-endian integer.
pub open spec fn dec_u32(s: Seq<u8>) -> Result<(u32, Seq<u8>), CodecError> {
    if s.len() >= 4 {
        Ok((
            (s[0] as u32 * 0x1000000 + s[1] as u32 * 0x10000 + s[2] as u32 * 0x100
                + s[3] as u32) as u32,
            s.skip(4),
        ))
    } else {
        Err(CodecError::ShortRead)
    }
}

/// Read a 64-bit big-endian integer.
pub open spec fn dec_u64(s: Seq<u8>) -> Result<(u64, Seq<u8>), CodecError> {
    if s.len() >= 8 {
        Ok((
            (s[0] as u64 * 0x100000000000000 + s[1] as u64 * 0x1000000000000
                + s[2] as u64 * 0x10000000000 + s[3] as u64 * 0x100000000
                + s[4] as u64 * 0x1000000 + s[5] as u64 * 0x10000 + s[6] as u64 * 0x100
                + s[7] as u64) as u64,
            s.skip(8),
        ))
    } else {
        Err(CodecError::ShortRead)
    }
}

/// Read a fixed number of raw bytes.
pub open spec fn dec_fixed(s: Seq<u8>, n: int) -> Result<(Seq<u8>, Seq<u8>), CodecError> {
    if s.len() >= n {
        Ok((s.take(n), s.skip(n)))
    } else {
        Err(CodecError::ShortRead)
    }
}

/// A byte string prefixed by its length as a 16-bit integer.
pub open spec fn enc_prefixed_u16(payload: Seq<u8>) -> Seq<u8> {
    enc_u16(payload.len() as u16) + payload
}

/// Whether a payload fits a 16-bit length prefix.
pub open spec fn fits_u16(payload: Seq<u8>) -> bool {
    payload.len() <= 0xFFFF
}

/// Read a byte string prefixed by its length as a 16-bit integer.
pub open spec fn dec_prefixed_u16(s: Seq<u8>) -> Result<(Seq<u8>, Seq<u8>), CodecError> {
    match dec_u16(s) {
        Ok((len, rest)) => dec_fixed(rest, len as int),
        Err(e) => Err(e),
    }
}

/// A byte string prefixed by its length as a 32-bit integer.
pub open spec fn enc_prefixed_u32(payload: Seq<u8>) -> Seq<u8> {
    enc_u32(payload.len() as u32) + payload
}

/// Whether a payload fits a 32-bit length prefix.
pub open spec fn fits_u32(payload: Seq<u8>) -> bool {
    payload.len() <= 0xFFFFFFFF
}

/// Read a byte string prefixed by its length as a 32-bit integer.
pub open spec fn dec_prefixed_u32(s: Seq<u8>) -> Result<(Seq<u8>, Seq<u8>), CodecError> {
    match dec_u32(s) {
        Ok((len, rest)) => dec_fixed(rest, len as int),
        Err(e) => Err(e),
    }
}

/// A byte string prefixed by its length as an 8-bit integer.
pub open spec fn enc_prefixed_u8(payload: Seq<u8>) -> Seq<u8> {
    enc_u8(payload.len() as u8) + payload
}

/// Whether a payload fits an 8-bit length prefix.
pub open spec fn fits_u8(payload: Seq<u8>) -> bool {
    payload.len() <= 0xFF
}

/// Read a byte string prefixed by its length as an 8-bit integer.
pub open spec fn dec_prefixed_u8(s: Seq<u8>) -> Result<(Seq<u8>, Seq<u8>), CodecError> {
    match dec_u8(s) {
        Ok((len, rest)) => dec_fixed(rest, len as int),
        Err(e) => Err(e),
    }
}

/// The outcome of decoding a whole buffer: leftover bytes are refused.
pub open spec fn dec_full<T>(d: Result<(T, Seq<u8>), CodecError>) -> Result<T, CodecError> {
    match d {
        Ok((t, rest)) => if rest.len() == 0 {
            Ok(t)
        } else {
            Err(CodecError::UnexpectedValue)
        },
        Err(e) => Err(e),
    }
}

pub proof fn lemma_fixed_round_trip(payload: Seq<u8>, rest: Seq<u8>)
    ensures
        dec_fixed(payload + rest, payload.len() as int) == Ok::<_, CodecError>((payload, rest)),
{
    assert((payload + rest).take(payload.len() as int) =~= payload);
    assert((payload + rest).skip(payload.len() as int) =~= rest);
}

pub proof fn lemma_fixed_canonical(s: Seq<u8>, n: int)
    requires
        0 <= n,
    ensures
        dec_fixed(s, n) matches Ok((p, rest)) ==> p.len() == n && p + rest == s,
{
    if 0 <= n <= s.len() {
        assert(s.take(n) + s.skip(n) =~= s);
    }
}

/// Splitting a sequence at any point and rejoining it gives it back.
pub proof fn lemma_take_skip(s: Seq<u8>, k: int)
    requires
        0 <= k <= s.len(),
    ensures
        s.take(k) + s.skip(k) == s,
{
    assert(s.take(k) + s.skip(k) =~= s);
}

pub proof fn lemma_add_empty_right(s: Seq<u8>)
    ensures
        s + Seq::<u8>::empty() == s,
{
    assert(s + Seq::<u8>::empty() =~= s);
}

pub proof fn lemma_add_empty_left(s: Seq<u8>)
    ensures
        Seq::<u8>::empty() + s == s,
{
    assert(Seq::<u8>::empty() + s =~= s);
}

// Parse locality: what a decoder reads off the front of the input does not
// change when more input follows. Together with the round-trip lemmas this
// shows that a buffer truncated inside any field fails to decode in full.

pub proof fn lemma_u8_prefix(s: Seq<u8>, extra: Seq<u8>)
    ensures
        dec_u8(s) matches Ok((x, rest)) ==> dec_u8(s + extra) == Ok::<_, CodecError>(
            (x, rest + extra),
        ),
{
    if s.len() >= 1 {
        assert((s + extra)[0] == s[0]);
        assert((s + extra).skip(1) =~= s.skip(1) + extra);
    }
}

pub proof fn lemma_u16_prefix(s: Seq<u8>, extra: Seq<u8>)
    ensures
        dec_u16(s) matches Ok((x, rest)) ==> dec_u16(s + extra) == Ok::<_, CodecError>(
            (x, rest + extra),
        ),
{
    if s.len() >= 2 {
        assert((s + extra)[0] == s[0] && (s + extra)[1] == s[1]);
        assert((s + extra).skip(2) =~= s.skip(2) + extra);
    }
}

pub proof fn lemma_u32_prefix(s: Seq<u8>, extra: Seq<u8>)
    ensures
        dec_u32(s) matches Ok((x, rest)) ==> dec_u32(s + extra) == Ok::<_, CodecError>(
            (x, rest + extra),
        ),
{
    if s.len() >= 4 {
        assert((s + extra)[0] == s[0] && (s + extra)[1] == s[1] && (s + extra)[2] == s[2] && (s
            + extra)[3] == s[3]);
        assert((s + extra).skip(4) =~= s.skip(4) + extra);
    }
}

pub proof fn lemma_u64_prefix(s: Seq<u8>, extra: Seq<u8>)
    ensures
        dec_u64(s) matches Ok((x, rest)) ==> dec_u64(s + extra) == Ok::<_, CodecError>(
            (x, rest + extra),
        ),
{
    if s.len() >= 8 {
        assert((s + extra)[0] == s[0] && (s + extra)[1] == s[1] && (s + extra)[2] == s[2] && (s
            + extra)[3] == s[3] && (s + extra)[4] == s[4] && (s + extra)[5] == s[5] && (s + extra)[6]
            == s[6] && (s + extra)[7] == s[7]);
        assert((s + extra).skip(8) =~= s.skip(8) + extra);
    }
}

pub proof fn lemma_fixed_prefix(s: Seq<u8>, extra: Seq<u8>, n: int)
    requires
        0 <= n,
    ensures
        dec_fixed(s, n) matches Ok((p, rest)) ==> dec_fixed(s + extra, n) == Ok::<_, CodecError>(
            (p, rest + extra),
        ),
{
    if s.len() >= n {
        assert((s + extra).take(n) =~= s.take(n));
        assert((s + extra).skip(n) =~= s.skip(n) + extra);
    }
}

pub proof fn lemma_prefixed_u8_prefix(s: Seq<u8>, extra: Seq<u8>)
    ensures
        dec_prefixed_u8(s) matches Ok((p, rest)) ==> dec_prefixed_u8(s + extra) == Ok::<
            _,
            CodecError,
        >((p, rest + extra)),
{
    lemma_u8_prefix(s, extra);
    if dec_u8(s) is Ok {
        let (len, s1) = dec_u8(s)->Ok_0;
        lemma_fixed_prefix(s1, extra, len as int);
    }
}

pub proof fn lemma_prefixed_u16_prefix(s: Seq<u8>, extra: Seq<u8>)
    ensures
        dec_prefixed_u16(s) matches Ok((p, rest)) ==> dec_prefixed_u16(s + extra) == Ok::<
            _,
            CodecError,
        >((p, rest + extra)),
{
    lemma_u16_prefix(s, extra);
    if dec_u16(s) is Ok {
        let (len, s1) = dec_u16(s)->Ok_0;
        lemma_fixed_prefix(s1, extra, len as int);
    }
}

pub proof fn lemma_prefixed_u32_prefix(s: Seq<u8>, extra: Seq<u8>)
    ensures
        dec_prefixed_u32(s) matches Ok((p, rest)) ==> dec_prefixed_u32(s + extra) == Ok::<
            _,
            CodecError,
        >((p, rest + extra)),
{
    lemma_u32_prefix(s, extra);
    if dec_u32(s) is Ok {
        let (len, s1) = dec_u32(s)->Ok_0;
        lemma_fixed_prefix(s1, extra, len as int);
    }
}

/// A value with a canonical wire encoding, suitable as the element of a
/// length-prefixed list. Implemented by the mathematical views of the message
/// types that travel in lists.
pub trait WireValue: Sized {
    /// The canonical encoding.
    spec fn encoding(self) -> Seq<u8>;

    /// Whether the encoder succeeds: every length fits its prefix.
    spec fn encodable(self) -> bool;

    /// Whether the value also survives a decode: encodable, and tagged fields
    /// hold no known code in a catch-all variant.
    spec fn wf(self) -> bool;

    /// Decode one value off the front of the input.
    spec fn dec(s: Seq<u8>) -> Result<(Self, Seq<u8>), CodecError>;

    /// Decoding inverts encoding on every well-formed value.
    proof fn lemma_round_trip(t: Self, rest: Seq<u8>)
        requires
            t.wf(),
        ensures
            Self::dec(t.encoding() + rest) == Ok::<_, CodecError>((t, rest)),
            t.encoding().len() >= 1,
    ;

    /// Whatever decodes was the canonical encoding of what came out, and at
    /// least one byte was consumed.
    proof fn lemma_canonical(s: Seq<u8>)
        ensures
            Self::dec(s) matches Ok((t, rest)) ==> t.wf() && t.encoding() + rest == s && rest.len()
                < s.len(),
    ;
}

/// The concatenated encodings of a list of values.
pub open spec fn items_encoding<T: WireValue>(items: Seq<T>) -> Seq<u8>
    decreases items.len(),
{
    if items.len() == 0 {
        Seq::empty()
    } else {
        items[0].encoding() + items_encoding(items.skip(1))
    }
}

pub open spec fn items_encodable<T: WireValue>(items: Seq<T>) -> bool {
    forall|i: int| 0 <= i < items.len() ==> (#[trigger] items[i]).encodable()
}

pub open spec fn items_wf<T: WireValue>(items: Seq<T>) -> bool {
    forall|i: int| 0 <= i < items.len() ==> (#[trigger] items[i]).wf()
}

/// Decode values until the input is exhausted. A decoder that consumes nothing
/// is refused, so the recursion always terminates.
pub open spec fn dec_items<T: WireValue>(body: Seq<u8>) -> Result<Seq<T>, CodecError>
    decreases body.len(),
{
    if body.len() == 0 {
        Ok(Seq::empty())
    } else {
        match T::dec(body) {
            Err(e) => Err(e),
            Ok((t, rest)) => if rest.len() < body.len() {
                match dec_items::<T>(rest) {
                    Err(e) => Err(e),
                    Ok(ts) => Ok(seq![t] + ts),
                }
            } else {
                Err(CodecError::UnexpectedValue)
            },
        }
    }
}

/// Appending one value appends its encoding.
pub proof fn lemma_items_encoding_push<T: WireValue>(items: Seq<T>, x: T)
    ensures
        items_encoding(items.push(x)) == items_encoding(items) + x.encoding(),
    decreases items.len(),
{
    if items.len() == 0 {
        assert(items.push(x).skip(1) =~= Seq::<T>::empty());
        assert(items.push(x)[0] == x);
        assert(items_encoding(items.push(x).skip(1)) == Seq::<u8>::empty());
        assert(items_encoding(items.push(x)) == x.encoding() + Seq::<u8>::empty());
        assert(x.encoding() + Seq::<u8>::empty() =~= x.encoding());
        assert(items_encoding(items) + x.encoding() =~= x.encoding());
    } else {
        assert(items.push(x).skip(1) =~= items.skip(1).push(x));
        lemma_items_encoding_push(items.skip(1), x);
        assert(items.push(x)[0] == items[0]);
        lemma_concat3(items[0].encoding(), items_encoding(items.skip(1)), x.encoding());
    }
}

/// Decoding a list inverts encoding it, element by element.
pub proof fn lemma_items_round_trip<T: WireValue>(items: Seq<T>)
    requires
        items_wf(items),
    ensures
        dec_items::<T>(items_encoding(items)) == Ok::<Seq<T>, CodecError>(items),
    decreases items.len(),
{
    if items.len() == 0 {
        assert(items =~= Seq::<T>::empty());
    } else {
        let t0 = items[0];
        let tail = items.skip(1);
        assert forall|i: int| 0 <= i < tail.len() implies (#[trigger] tail[i]).wf() by {
            assert(tail[i] == items[i + 1]);
        }
        T::lemma_round_trip(t0, items_encoding(tail));
        lemma_items_round_trip::<T>(tail);
        assert(seq![t0] + tail =~= items);
    }
}

/// Whatever decodes as a list was the canonical encoding of what came out.
pub proof fn lemma_items_canonical<T: WireValue>(body: Seq<u8>)
    ensures
        dec_items::<T>(body) matches Ok(ts) ==> items_wf(ts) && items_encoding(ts) == body,
    decreases body.len(),
{
    if body.len() == 0 {
        if dec_items::<T>(body) is Ok {
            let ts = dec_items::<T>(body)->Ok_0;
            assert(items_encoding(ts) =~= body);
        }
    } else {
        if T::dec(body) is Ok {
            T::lemma_canonical(body);
            let (t, rest) = T::dec(body)->Ok_0;
            if rest.len() < body.len() {
                lemma_items_canonical::<T>(rest);
                if dec_items::<T>(rest) is Ok {
                    let tail = dec_items::<T>(rest)->Ok_0;
                    let ts = seq![t] + tail;
                    assert(ts[0] == t);
                    assert(ts.skip(1) =~= tail);
                    assert(items_encoding(ts) == t.encoding() + items_encoding(tail));
                    assert forall|i: int| 0 <= i < ts.len() implies (#[trigger] ts[i]).wf() by {
                        if i > 0 {
                            assert(ts[i] == tail[i - 1]);
                        }
                    }
                }
            }
        }
    }
}

// Concatenation of fields is associative. Compound messages encode as a
// left-nested concatenation of their fields, while decoding peels the fields
// off the front one at a time; these lemmas bridge the two shapes.

pub proof fn lemma_concat3(a: Seq<u8>, b: Seq<u8>, c: Seq<u8>)
    ensures
        a + b + c == a + (b + c),
{
    assert(a + b + c =~= a + (b + c));
}

pub proof fn lemma_concat4(a: Seq<u8>, b: Seq<u8>, c: Seq<u8>, d: Seq<u8>)
    ensures
        a + b + c + d == a + (b + (c + d)),
{
    assert(a + b + c + d =~= a + (b + (c + d)));
}

pub proof fn lemma_concat5(a: Seq<u8>, b: Seq<u8>, c: Seq<u8>, d: Seq<u8>, e: Seq<u8>)
    ensures
        a + b + c + d + e == a + (b + (c + (d + e))),
{
    assert(a + b + c + d + e =~= a + (b + (c + (d + e))));
}

pub proof fn lemma_concat6(a: Seq<u8>, b: Seq<u8>, c: Seq<u8>, d: Seq<u8>, e: Seq<u8>, f: Seq<u8>)
    ensures
        a + b + c + d + e + f == a + (b + (c + (d + (e + f)))),
{
    assert(a + b + c + d + e + f =~= a + (b + (c + (d + (e + f)))));
}

pub proof fn lemma_concat7(
    a: Seq<u8>,
    b: Seq<u8>,
    c: Seq<u8>,
    d: Seq<u8>,
    e: Seq<u8>,
    f: Seq<u8>,
    g: Seq<u8>,
)
    ensures
        a + b + c + d + e + f + g == a + (b + (c + (d + (e + (f + g))))),
{
    assert(a + b + c + d + e + f + g =~= a + (b + (c + (d + (e + (f + g))))));
}

// Round-trip and canonicity lemmas for the primitives. Decoding inverts
// encoding, and whatever decodes re-encodes to the very bytes consumed.

pub proof fn lemma_u8_round_trip(x: u8, rest: Seq<u8>)
    ensures
        dec_u8(enc_u8(x) + rest) == Ok::<_, CodecError>((x, rest)),
        enc_u8(x).len() == 1,
{
    let s = enc_u8(x) + rest;
    assert(s[0] == x);
    assert(s.skip(1) =~= rest);
}

pub proof fn lemma_u8_canonical(s: Seq<u8>)
    ensures
        dec_u8(s) matches Ok((x, rest)) ==> enc_u8(x) + rest == s && rest.len() == s.len() - 1,
{
    if s.len() >= 1 {
        assert(enc_u8(s[0]) + s.skip(1) =~= s);
    }
}

pub proof fn lemma_u16_round_trip(x: u16, rest: Seq<u8>)
    ensures
        dec_u16(enc_u16(x) + rest) == Ok::<_, CodecError>((x, rest)),
        enc_u16(x).len() == 2,
{
    let s = enc_u16(x) + rest;
    assert(s[0] == (x / 0x100) as u8 && s[1] == (x % 0x100) as u8);
    assert((x / 0x100) as u8 as u16 * 0x100 + (x % 0x100) as u8 as u16 == x) by (bit_vector);
    assert(s.skip(2) =~= rest);
}

pub proof fn lemma_u16_canonical(s: Seq<u8>)
    ensures
        dec_u16(s) matches Ok((x, rest)) ==> enc_u16(x) + rest == s && rest.len() == s.len() - 2,
{
    if s.len() >= 2 {
        let a = s[0];
        let b = s[1];
        let x = (a as u16 * 0x100 + b as u16) as u16;
        assert((a as u16 * 0x100 + b as u16) / 0x100 == a as u16 && (a as u16 * 0x100 + b as u16)
            % 0x100 == b as u16) by (bit_vector);
        assert(enc_u16(x) =~= seq![a, b]);
        assert(enc_u16(x) + s.skip(2) =~= s);
    }
}

pub proof fn lemma_u32_round_trip(x: u32, rest: Seq<u8>)
    ensures
        dec_u32(enc_u32(x) + rest) == Ok::<_, CodecError>((x, rest)),
        enc_u32(x).len() == 4,
{
    let s = enc_u32(x) + rest;
    assert(s[0] == ((x / 0x1000000) % 0x100) as u8 && s[1] == ((x / 0x10000) % 0x100) as u8 && s[2]
        == ((x / 0x100) % 0x100) as u8 && s[3] == (x % 0x100) as u8);
    assert(((x / 0x1000000) % 0x100) as u8 as u32 * 0x1000000 + ((x / 0x10000) % 0x100) as u8 as u32
        * 0x10000 + ((x / 0x100) % 0x100) as u8 as u32 * 0x100 + (x % 0x100) as u8 as u32 == x)
        by (bit_vector);
    assert(s.skip(4) =~= rest);
}

pub proof fn lemma_u32_canonical(s: Seq<u8>)
    ensures
        dec_u32(s) matches Ok((x, rest)) ==> enc_u32(x) + rest == s && rest.len() == s.len() - 4,
{
    if s.len() >= 4 {
        let a = s[0];
        let b = s[1];
        let c = s[2];
        let d = s[3];
        let x = (a as u32 * 0x1000000 + b as u32 * 0x10000 + c as u32 * 0x100 + d as u32) as u32;
        assert({
            let y = a as u32 * 0x1000000 + b as u32 * 0x10000 + c as u32 * 0x100 + d as u32;
            (y / 0x1000000) % 0x100 == a as u32 && (y / 0x10000) % 0x100 == b as u32 && (y / 0x100)
                % 0x100 == c as u32 && y % 0x100 == d as u32
        }) by (bit_vector);
        assert(enc_u32(x) =~= seq![a, b, c, d]);
        assert(enc_u32(x) + s.skip(4) =~= s);
    }
}

pub proof fn lemma_u64_round_trip(x: u64, rest: Seq<u8>)
    ensures
        dec_u64(enc_u64(x) + rest) == Ok::<_, CodecError>((x, rest)),
        enc_u64(x).len() == 8,
{
    let s = enc_u64(x) + rest;
    assert(s[0] == ((x / 0x100000000000000) % 0x100) as u8 && s[1] == ((x / 0x1000000000000)
        % 0x100) as u8 && s[2] == ((x / 0x10000000000) % 0x100) as u8 && s[3] == ((x / 0x100000000)
        % 0x100) as u8 && s[4] == ((x / 0x1000000) % 0x100) as u8 && s[5] == ((x / 0x10000)
        % 0x100) as u8 && s[6] == ((x / 0x100) % 0x100) as u8 && s[7] == (x % 0x100) as u8);
    assert(((x / 0x100000000000000) % 0x100) as u8 as u64 * 0x100000000000000 + ((x
        / 0x1000000000000) % 0x100) as u8 as u64 * 0x1000000000000 + ((x / 0x10000000000)
        % 0x100) as u8 as u64 * 0x10000000000 + ((x / 0x100000000) % 0x100) as u8 as u64
        * 0x100000000 + ((x / 0x1000000) % 0x100) as u8 as u64 * 0x1000000 + ((x / 0x10000)
        % 0x100) as u8 as u64 * 0x10000 + ((x / 0x100) % 0x100) as u8 as u64 * 0x100 + (x
        % 0x100) as u8 as u64 == x) by (bit_vector);
    assert(s.skip(8) =~= rest);
}

pub proof fn lemma_u64_canonical(s: Seq<u8>)
    ensures
        dec_u64(s) matches Ok((x, rest)) ==> enc_u64(x) + rest == s && rest.len() == s.len() - 8,
{
    if s.len() >= 8 {
        let b0 = s[0];
        let b1 = s[1];
        let b2 = s[2];
        let b3 = s[3];
        let b4 = s[4];
        let b5 = s[5];
        let b6 = s[6];
        let b7 = s[7];
        let x = (b0 as u64 * 0x100000000000000 + b1 as u64 * 0x1000000000000 + b2 as u64
            * 0x10000000000 + b3 as u64 * 0x100000000 + b4 as u64 * 0x1000000 + b5 as u64 * 0x10000
            + b6 as u64 * 0x100 + b7 as u64) as u64;
        assert({
            let y = b0 as u64 * 0x100000000000000 + b1 as u64 * 0x1000000000000 + b2 as u64
                * 0x10000000000 + b3 as u64 * 0x100000000 + b4 as u64 * 0x1000000 + b5 as u64
                * 0x10000 + b6 as u64 * 0x100 + b7 as u64;
            (y / 0x100000000000000) % 0x100 == b0 as u64 && (y / 0x1000000000000) % 0x100
                == b1 as u64 && (y / 0x10000000000) % 0x100 == b2 as u64 && (y / 0x100000000)
                % 0x100 == b3 as u64 && (y / 0x1000000) % 0x100 == b4 as u64 && (y / 0x10000)
                % 0x100 == b5 as u64 && (y / 0x100) % 0x100 == b6 as u64 && y % 0x100 == b7 as u64
        }) by (bit_vector);
        assert(enc_u64(x) =~= seq![b0, b1, b2, b3, b4, b5, b6, b7]);
        assert(enc_u64(x) + s.skip(8) =~= s);
    }
}

pub proof fn lemma_prefixed_u16_round_trip(payload: Seq<u8>, rest: Seq<u8>)
    requires
        fits_u16(payload),
    ensures
        dec_prefixed_u16(enc_prefixed_u16(payload) + rest) == Ok::<_, CodecError>((payload, rest)),
        enc_prefixed_u16(payload).len() == 2 + payload.len(),
{
    let len = payload.len() as u16;
    lemma_u16_round_trip(len, payload + rest);
    assert(enc_prefixed_u16(payload) + rest =~= enc_u16(len) + (payload + rest));
    assert((payload + rest).take(len as int) =~= payload);
    assert((payload + rest).skip(len as int) =~= rest);
}

pub proof fn lemma_prefixed_u16_canonical(s: Seq<u8>)
    ensures
        dec_prefixed_u16(s) matches Ok((p, rest)) ==> fits_u16(p) && enc_prefixed_u16(p) + rest
            == s && rest.len() <= s.len() - 2,
{
    if dec_u16(s) is Ok {
        lemma_u16_canonical(s);
        let (len, s1) = dec_u16(s)->Ok_0;
        if s1.len() >= len {
            let p = s1.take(len as int);
            let rest = s1.skip(len as int);
            assert(p.len() == len as int);
            assert(enc_prefixed_u16(p) + rest =~= enc_u16(len) + s1);
        }
    }
}

pub proof fn lemma_prefixed_u32_round_trip(payload: Seq<u8>, rest: Seq<u8>)
    requires
        fits_u32(payload),
    ensures
        dec_prefixed_u32(enc_prefixed_u32(payload) + rest) == Ok::<_, CodecError>((payload, rest)),
        enc_prefixed_u32(payload).len() == 4 + payload.len(),
{
    let len = payload.len() as u32;
    lemma_u32_round_trip(len, payload + rest);
    assert(enc_prefixed_u32(payload) + rest =~= enc_u32(len) + (payload + rest));
    assert((payload + rest).take(len as int) =~= payload);
    assert((payload + rest).skip(len as int) =~= rest);
}

pub proof fn lemma_prefixed_u32_canonical(s: Seq<u8>)
    ensures
        dec_prefixed_u32(s) matches Ok((p, rest)) ==> fits_u32(p) && enc_prefixed_u32(p) + rest
            == s && rest.len() <= s.len() - 4,
{
    if dec_u32(s) is Ok {
        lemma_u32_canonical(s);
        let (len, s1) = dec_u32(s)->Ok_0;
        if s1.len() >= len {
            let p = s1.take(len as int);
            let rest = s1.skip(len as int);
            assert(p.len() == len as int);
            assert(enc_prefixed_u32(p) + rest =~= enc_u32(len) + s1);
        }
    }
}

pub proof fn lemma_prefixed_u8_round_trip(payload: Seq<u8>, rest: Seq<u8>)
    requires
        fits_u8(payload),
    ensures
        dec_prefixed_u8(enc_prefixed_u8(payload) + rest) == Ok::<_, CodecError>((payload, rest)),
        enc_prefixed_u8(payload).len() == 1 + payload.len(),
{
    let len = payload.len() as u8;
    lemma_u8_round_trip(len, payload + rest);
    assert(enc_prefixed_u8(payload) + rest =~= enc_u8(len) + (payload + rest));
    assert((payload + rest).take(len as int) =~= payload);
    assert((payload + rest).skip(len as int) =~= rest);
}

pub proof fn lemma_prefixed_u8_canonical(s: Seq<u8>)
    ensures
        dec_prefixed_u8(s) matches Ok((p, rest)) ==> fits_u8(p) && enc_prefixed_u8(p) + rest == s
            && rest.len() <= s.len() - 1,
{
    if dec_u8(s) is Ok {
        lemma_u8_canonical(s);
        let (len, s1) = dec_u8(s)->Ok_0;
        if s1.len() >= len {
            let p = s1.take(len as int);
            let rest = s1.skip(len as int);
            assert(p.len() == len as int);
            assert(enc_prefixed_u8(p) + rest =~= enc_u8(len) + s1);
        }
    }
}

// Executable encoders. Each appends the specification-level encoding.

pub fn encode_u8(bytes: &mut Vec<u8>, x: u8)
    ensures
        final(bytes)@ == old(bytes)@ + enc_u8(x),
{
    bytes.push(x);
    proof {
        assert(bytes@ =~= old(bytes)@ + enc_u8(x));
    }
}

pub fn encode_u16(bytes: &mut Vec<u8>, x: u16)
    ensures
        final(bytes)@ == old(bytes)@ + enc_u16(x),
{
    bytes.push((x / 0x100) as u8);
    bytes.push((x % 0x100) as u8);
    proof {
        assert(bytes@ =~= old(bytes)@ + enc_u16(x));
    }
}

pub fn encode_u32(bytes: &mut Vec<u8>, x: u32)
    ensures
        final(bytes)@ == old(bytes)@ + enc_u32(x),
{
    bytes.push(((x / 0x1000000) % 0x100) as u8);
    bytes.push(((x / 0x10000) % 0x100) as u8);
    bytes.push(((x / 0x100) % 0x100) as u8);
    bytes.push((x % 0x100) as u8);
    proof {
        assert(bytes@ =~= old(bytes)@ + enc_u32(x));
    }
}

pub fn encode_u64(bytes: &mut Vec<u8>, x: u64)
    ensures
        final(bytes)@ == old(bytes)@ + enc_u64(x),
{
    bytes.push(((x / 0x100000000000000) % 0x100) as u8);
    bytes.push(((x / 0x1000000000000) % 0x100) as u8);
    bytes.push(((x / 0x10000000000) % 0x100) as u8);
    bytes.push(((x / 0x100000000) % 0x100) as u8);
    bytes.push(((x / 0x1000000) % 0x100) as u8);
    bytes.push(((x / 0x10000) % 0x100) as u8);
    bytes.push(((x / 0x100) % 0x100) as u8);
    bytes.push((x % 0x100) as u8);
    proof {
        assert(bytes@ =~= old(bytes)@ + enc_u64(x));
    }
}

/// Append raw bytes, with no length prefix.
pub fn encode_raw(bytes: &mut Vec<u8>, input: &[u8])
    ensures
        final(bytes)@ == old(bytes)@ + input@,
{
    proof {
        assert(bytes@ =~= old(bytes)@ + input@.take(0));
    }
    let mut i: usize = 0;
    while i < input.len()
        invariant
            i <= input@.len(),
            bytes@ == old(bytes)@ + input@.take(i as int),
        decreases input@.len() - i,
    {
        bytes.push(input[i]);
        i = i + 1;
        proof {
            assert(bytes@ =~= old(bytes)@ + input@.take(i as int));
        }
    }
    proof {
        assert(input@.take(input@.len() as int) =~= input@);
    }
}

/// Append a byte string prefixed by its length as a 16-bit integer.
/// Fails when the payload is longer than the prefix can say.
pub fn encode_u16_bytes(bytes: &mut Vec<u8>, input: &[u8]) -> (r: Result<(), CodecError>)
    ensures
        r is Ok <==> fits_u16(input@),
        r is Ok ==> final(bytes)@ == old(bytes)@ + enc_prefixed_u16(input@),
        r is Err ==> r == Err::<(), CodecError>(CodecError::LengthOverflow) && final(bytes)@ == old(
            bytes,
        )@,
{
    if input.len() > 0xFFFF {
        return Err(CodecError::LengthOverflow);
    }
    encode_u16(bytes, input.len() as u16);
    encode_raw(bytes, input);
    proof {
        assert(bytes@ =~= old(bytes)@ + enc_prefixed_u16(input@));
    }
    Ok(())
}

/// Append a byte string prefixed by its length as a 32-bit integer.
/// Fails when the payload is longer than the prefix can say.
pub fn encode_u32_bytes(bytes: &mut Vec<u8>, input: &[u8]) -> (r: Result<(), CodecError>)
    ensures
        r is Ok <==> fits_u32(input@),
        r is Ok ==> final(bytes)@ == old(bytes)@ + enc_prefixed_u32(input@),
        r is Err ==> r == Err::<(), CodecError>(CodecError::LengthOverflow) && final(bytes)@ == old(
            bytes,
        )@,
{
    if input.len() > 0xFFFFFFFF {
        return Err(CodecError::LengthOverflow);
    }
    encode_u32(bytes, input.len() as u32);
    encode_raw(bytes, input);
    proof {
        assert(bytes@ =~= old(bytes)@ + enc_prefixed_u32(input@));
    }
    Ok(())
}

/// Append a byte string prefixed by its length as an 8-bit integer.
/// Fails when the payload is longer than the prefix can say.
pub fn encode_u8_bytes(bytes: &mut Vec<u8>, input: &[u8]) -> (r: Result<(), CodecError>)
    ensures
        r is Ok <==> fits_u8(input@),
        r is Ok ==> final(bytes)@ == old(bytes)@ + enc_prefixed_u8(input@),
        r is Err ==> r == Err::<(), CodecError>(CodecError::LengthOverflow) && final(bytes)@ == old(
            bytes,
        )@,
{
    if input.len() > 0xFF {
        return Err(CodecError::LengthOverflow);
    }
    encode_u8(bytes, input.len() as u8);
    encode_raw(bytes, input);
    proof {
        assert(bytes@ =~= old(bytes)@ + enc_prefixed_u8(input@));
    }
    Ok(())
}

// Executable decoders. Each is proved to match its specification-level decoder
// on the input that starts at the cursor.

pub fn decode_u8(bytes: &[u8], pos: &mut usize) -> (r: Result<u8, CodecError>)
    requires
        *old(pos) <= bytes@.len(),
    ensures
        *old(pos) <= *final(pos) <= bytes@.len(),
        match r {
            Ok(x) => dec_u8(bytes@.skip(*old(pos) as int)) == Ok::<_, CodecError>(
                (x, bytes@.skip(*final(pos) as int)),
            ),
            Err(e) => dec_u8(bytes@.skip(*old(pos) as int)) == Err::<(u8, Seq<u8>), CodecError>(e),
        },
{
    if bytes.len() - *pos >= 1 {
        let b = bytes[*pos];
        *pos = *pos + 1;
        proof {
            assert(bytes@.skip(*old(pos) as int).skip(1) =~= bytes@.skip(*pos as int));
        }
        Ok(b)
    } else {
        Err(CodecError::ShortRead)
    }
}

pub fn decode_u16(bytes: &[u8], pos: &mut usize) -> (r: Result<u16, CodecError>)
    requires
        *old(pos) <= bytes@.len(),
    ensures
        *old(pos) <= *final(pos) <= bytes@.len(),
        match r {
            Ok(x) => dec_u16(bytes@.skip(*old(pos) as int)) == Ok::<_, CodecError>(
                (x, bytes@.skip(*final(pos) as int)),
            ),
            Err(e) => dec_u16(bytes@.skip(*old(pos) as int)) == Err::<(u16, Seq<u8>), CodecError>(
                e,
            ),
        },
{
    if bytes.len() - *pos >= 2 {
        let b0 = bytes[*pos];
        let b1 = bytes[*pos + 1];
        *pos = *pos + 2;
        proof {
            assert(bytes@.skip(*old(pos) as int).skip(2) =~= bytes@.skip(*pos as int));
        }
        Ok(b0 as u16 * 0x100 + b1 as u16)
    } else {
        Err(CodecError::ShortRead)
    }
}

pub fn decode_u32(bytes: &[u8], pos: &mut usize) -> (r: Result<u32, CodecError>)
    requires
        *old(pos) <= bytes@.len(),
    ensures
        *old(pos) <= *final(pos) <= bytes@.len(),
        match r {
            Ok(x) => dec_u32(bytes@.skip(*old(pos) as int)) == Ok::<_, CodecError>(
                (x, bytes@.skip(*final(pos) as int)),
            ),
            Err(e) => dec_u32(bytes@.skip(*old(pos) as int)) == Err::<(u32, Seq<u8>), CodecError>(
                e,
            ),
        },
{
    if bytes.len() - *pos >= 4 {
        let b0 = bytes[*pos];
        let b1 = bytes[*pos + 1];
        let b2 = bytes[*pos + 2];
        let b3 = bytes[*pos + 3];
        *pos = *pos + 4;
        proof {
            assert(bytes@.skip(*old(pos) as int).skip(4) =~= bytes@.skip(*pos as int));
        }
        Ok(b0 as u32 * 0x1000000 + b1 as u32 * 0x10000 + b2 as u32 * 0x100 + b3 as u32)
    } else {
        Err(CodecError::ShortRead)
    }
}

pub fn decode_u64(bytes: &[u8], pos: &mut usize) -> (r: Result<u64, CodecError>)
    requires
        *old(pos) <= bytes@.len(),
    ensures
        *old(pos) <= *final(pos) <= bytes@.len(),
        match r {
            Ok(x) => dec_u64(bytes@.skip(*old(pos) as int)) == Ok::<_, CodecError>(
                (x, bytes@.skip(*final(pos) as int)),
            ),
            Err(e) => dec_u64(bytes@.skip(*old(pos) as int)) == Err::<(u64, Seq<u8>), CodecError>(
                e,
            ),
        },
{
    if bytes.len() - *pos >= 8 {
        let b0 = bytes[*pos];
        let b1 = bytes[*pos + 1];
        let b2 = bytes[*pos + 2];
        let b3 = bytes[*pos + 3];
        let b4 = bytes[*pos + 4];
        let b5 = bytes[*pos + 5];
        let b6 = bytes[*pos + 6];
        let b7 = bytes[*pos + 7];
        *pos = *pos + 8;
        proof {
            assert(bytes@.skip(*old(pos) as int).skip(8) =~= bytes@.skip(*pos as int));
        }
        Ok(
            b0 as u64 * 0x100000000000000 + b1 as u64 * 0x1000000000000 + b2 as u64
                * 0x10000000000 + b3 as u64 * 0x100000000 + b4 as u64 * 0x1000000 + b5 as u64
                * 0x10000 + b6 as u64 * 0x100 + b7 as u64,
        )
    } else {
        Err(CodecError::ShortRead)
    }
}

/// Read a fixed number of raw bytes.
pub fn decode_raw(bytes: &[u8], pos: &mut usize, n: usize) -> (r: Result<Vec<u8>, CodecError>)
    requires
        *old(pos) <= bytes@.len(),
    ensures
        *old(pos) <= *final(pos) <= bytes@.len(),
        match r {
            Ok(out) => dec_fixed(bytes@.skip(*old(pos) as int), n as int) == Ok::<
                _,
                CodecError,
            >((out@, bytes@.skip(*final(pos) as int))),
            Err(e) => dec_fixed(bytes@.skip(*old(pos) as int), n as int) == Err::<
                (Seq<u8>, Seq<u8>),
                CodecError,
            >(e),
        },
{
    if bytes.len() - *pos >= n {
        let out = vstd::slice::slice_to_vec(vstd::slice::slice_subrange(bytes, *pos, *pos + n));
        *pos = *pos + n;
        proof {
            assert(bytes@.skip(*old(pos) as int).take(n as int) =~= out@);
            assert(bytes@.skip(*old(pos) as int).skip(n as int) =~= bytes@.skip(*pos as int));
        }
        Ok(out)
    } else {
        Err(CodecError::ShortRead)
    }
}

/// Read a byte string prefixed by its length as a 16-bit integer.
pub fn decode_u16_bytes(bytes: &[u8], pos: &mut usize) -> (r: Result<Vec<u8>, CodecError>)
    requires
        *old(pos) <= bytes@.len(),
    ensures
        *old(pos) <= *final(pos) <= bytes@.len(),
        match r {
            Ok(out) => dec_prefixed_u16(bytes@.skip(*old(pos) as int)) == Ok::<_, CodecError>(
                (out@, bytes@.skip(*final(pos) as int)),
            ),
            Err(e) => dec_prefixed_u16(bytes@.skip(*old(pos) as int)) == Err::<
                (Seq<u8>, Seq<u8>),
                CodecError,
            >(e),
        },
{
    let len = decode_u16(bytes, pos)?;
    decode_raw(bytes, pos, len as usize)
}

/// Read a byte string prefixed by its length as a 32-bit integer.
pub fn decode_u32_bytes(bytes: &[u8], pos: &mut usize) -> (r: Result<Vec<u8>, CodecError>)
    requires
        *old(pos) <= bytes@.len(),
    ensures
        *old(pos) <= *final(pos) <= bytes@.len(),
        match r {
            Ok(out) => dec_prefixed_u32(bytes@.skip(*old(pos) as int)) == Ok::<_, CodecError>(
                (out@, bytes@.skip(*final(pos) as int)),
            ),
            Err(e) => dec_prefixed_u32(bytes@.skip(*old(pos) as int)) == Err::<
                (Seq<u8>, Seq<u8>),
                CodecError,
            >(e),
        },
{
    let len = decode_u32(bytes, pos)?;
    decode_raw(bytes, pos, len as usize)
}

/// Read a byte string prefixed by its length as an 8-bit integer.
pub fn decode_u8_bytes(bytes: &[u8], pos: &mut usize) -> (r: Result<Vec<u8>, CodecError>)
    requires
        *old(pos) <= bytes@.len(),
    ensures
        *old(pos) <= *final(pos) <= bytes@.len(),
        match r {
            Ok(out) => dec_prefixed_u8(bytes@.skip(*old(pos) as int)) == Ok::<_, CodecError>(
                (out@, bytes@.skip(*final(pos) as int)),
            ),
            Err(e) => dec_prefixed_u8(bytes@.skip(*old(pos) as int)) == Err::<
                (Seq<u8>, Seq<u8>),
                CodecError,
            >(e),
        },
{
    let len = decode_u8(bytes, pos)?;
    decode_raw(bytes, pos, len as usize)
}

} // verus!
