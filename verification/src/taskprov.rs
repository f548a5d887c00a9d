//! Messages for the taskprov extension: task configurations provisioned in
//! band, under two coexisting drafts of the protocol.
//!
//! The draft governs three things: where a query configuration's type tag
//! sits, whether the body of a known variant carries an explicit 16-bit length
//! prefix, and whether the two Aggregator endpoints travel as a
//! length-prefixed list or as two consecutive values. Unimplemented variants
//! decode only under the later draft, which frames their parameters; under the
//! earlier draft they stream to the end of the message and decoding must fail.

use vstd::prelude::*;
use crate::DapVersion;
use crate::codec::{
    CodecError, WireValue, dec_fixed, dec_full, dec_items, dec_prefixed_u16, dec_prefixed_u8,
    dec_u16, dec_u32, dec_u64, dec_u8, decode_u16, decode_u16_bytes, decode_u32,
    decode_u64, decode_u8, decode_u8_bytes, enc_prefixed_u16, enc_prefixed_u8, enc_u16, enc_u32,
    enc_u64, enc_u8, encode_raw, encode_u16, encode_u16_bytes, encode_u32, encode_u64, encode_u8,
    encode_u8_bytes, fits_u16, fits_u8, items_encoding, items_wf, lemma_concat3,
    lemma_concat6, lemma_fixed_round_trip, lemma_items_canonical, lemma_items_round_trip,
    lemma_prefixed_u16_canonical, lemma_prefixed_u16_prefix, lemma_prefixed_u16_round_trip,
    lemma_prefixed_u8_canonical, lemma_prefixed_u8_prefix, lemma_prefixed_u8_round_trip,
    lemma_u16_canonical, lemma_u16_prefix, lemma_u16_round_trip, lemma_u32_canonical,
    lemma_u32_prefix, lemma_u32_round_trip, lemma_u64_canonical, lemma_u64_prefix,
    lemma_u64_round_trip, lemma_u8_canonical, lemma_u8_prefix, lemma_u8_round_trip,
};
use crate::messages::{Duration, Time};

verus! {

/// The VDAF type code for Prio2.
pub const VDAF_TYPE_PRIO2: u32 = 0xFFFF_0000;

/// The differential-privacy mechanism code for "no mechanism".
pub const DP_MECHANISM_NONE: u8 = 0x01;

/// The taskprov query-type tag for time-interval queries.
pub const TASKPROV_QUERY_TYPE_TIME_INTERVAL: u8 = 0x01;

/// The taskprov query-type tag for fixed-size queries.
pub const TASKPROV_QUERY_TYPE_FIXED_SIZE: u8 = 0x02;

// The body of a known variant is framed under Draft07: a 16-bit length prefix
// that must name the body's exact length. Under Draft02 the body stands bare.

/// A 32-bit body, framed or bare according to the draft.
pub open spec fn enc_u16_item_u32(v: DapVersion, x: u32) -> Seq<u8> {
    match v {
        DapVersion::Draft07 => enc_u16(4) + enc_u32(x),
        DapVersion::Draft02 => enc_u32(x),
    }
}

/// Read a 32-bit body, framed or bare according to the draft. Under Draft07
/// the frame must name exactly four bytes.
pub open spec fn dec_u16_item_u32(v: DapVersion, s: Seq<u8>) -> Result<(u32, Seq<u8>), CodecError> {
    match v {
        DapVersion::Draft07 => match dec_prefixed_u16(s) {
            Err(e) => Err(e),
            Ok((body, rest)) => match dec_u32(body) {
                Err(e) => Err(e),
                Ok((x, extra)) => if extra.len() == 0 {
                    Ok((x, rest))
                } else {
                    Err(CodecError::UnexpectedValue)
                },
            },
        },
        DapVersion::Draft02 => dec_u32(s),
    }
}

/// An empty body, framed or bare according to the draft.
pub open spec fn enc_u16_item_unit(v: DapVersion) -> Seq<u8> {
    match v {
        DapVersion::Draft07 => enc_u16(0),
        DapVersion::Draft02 => Seq::empty(),
    }
}

/// Read an empty body: under Draft07 the frame must name zero bytes, and under
/// Draft02 there is nothing to read.
pub open spec fn dec_u16_item_unit(v: DapVersion, s: Seq<u8>) -> Result<Seq<u8>, CodecError> {
    match v {
        DapVersion::Draft07 => match dec_prefixed_u16(s) {
            Err(e) => Err(e),
            Ok((body, rest)) => if body.len() == 0 {
                Ok(rest)
            } else {
                Err(CodecError::UnexpectedValue)
            },
        },
        DapVersion::Draft02 => Ok(s),
    }
}

pub proof fn lemma_u16_item_u32_round_trip(v: DapVersion, x: u32, rest: Seq<u8>)
    ensures
        dec_u16_item_u32(v, enc_u16_item_u32(v, x) + rest) == Ok::<_, CodecError>((x, rest)),
        enc_u16_item_u32(v, x).len() == (if v is Draft07 {
            6int
        } else {
            4int
        }),
{
    match v {
        DapVersion::Draft07 => {
            lemma_concat3(enc_u16(4), enc_u32(x), rest);
            lemma_u16_round_trip(4, enc_u32(x) + rest);
            assert(enc_u32(x).len() == 4);
            lemma_fixed_round_trip(enc_u32(x), rest);
            lemma_u32_round_trip(x, Seq::empty());
            assert(enc_u32(x) + Seq::<u8>::empty() =~= enc_u32(x));
        },
        DapVersion::Draft02 => {
            lemma_u32_round_trip(x, rest);
        },
    }
}

pub proof fn lemma_u16_item_u32_canonical(v: DapVersion, s: Seq<u8>)
    ensures
        dec_u16_item_u32(v, s) matches Ok((x, rest)) ==> enc_u16_item_u32(v, x) + rest == s
            && rest.len() < s.len(),
{
    match v {
        DapVersion::Draft07 => {
            lemma_prefixed_u16_canonical(s);
            if dec_prefixed_u16(s) is Ok {
                let (body, rest) = dec_prefixed_u16(s)->Ok_0;
                lemma_u32_canonical(body);
                if dec_u32(body) is Ok {
                    let (x, extra) = dec_u32(body)->Ok_0;
                    if extra.len() == 0 {
                        assert(enc_u32(x) + extra =~= enc_u32(x));
                        assert(body == enc_u32(x));
                        lemma_concat3(enc_u16(4), enc_u32(x), rest);
                        assert(enc_prefixed_u16(body) == enc_u16(4) + body);
                    }
                }
            }
        },
        DapVersion::Draft02 => {
            lemma_u32_canonical(s);
        },
    }
}

pub proof fn lemma_u16_item_unit_round_trip(v: DapVersion, rest: Seq<u8>)
    ensures
        dec_u16_item_unit(v, enc_u16_item_unit(v) + rest) == Ok::<Seq<u8>, CodecError>(rest),
{
    match v {
        DapVersion::Draft07 => {
            lemma_u16_round_trip(0, rest);
            assert(dec_fixed(rest, 0) == Ok::<_, CodecError>((rest.take(0), rest.skip(0))));
            assert(rest.take(0).len() == 0);
            assert(rest.skip(0) =~= rest);
        },
        DapVersion::Draft02 => {
            assert(enc_u16_item_unit(v) + rest =~= rest);
        },
    }
}

pub proof fn lemma_u16_item_unit_canonical(v: DapVersion, s: Seq<u8>)
    ensures
        dec_u16_item_unit(v, s) matches Ok(rest) ==> enc_u16_item_unit(v) + rest == s,
{
    match v {
        DapVersion::Draft07 => {
            lemma_prefixed_u16_canonical(s);
            if dec_prefixed_u16(s) is Ok {
                let (body, rest) = dec_prefixed_u16(s)->Ok_0;
                if body.len() == 0 {
                    assert(body =~= Seq::<u8>::empty());
                    assert(enc_prefixed_u16(body) =~= enc_u16(0));
                }
            }
        },
        DapVersion::Draft02 => {
            assert forall|rest: Seq<u8>| dec_u16_item_unit(v, s) == Ok::<Seq<u8>, CodecError>(
                rest,
            ) implies enc_u16_item_unit(v) + rest == s by {
                assert(enc_u16_item_unit(v) + s =~= s);
            }
        },
    }
}

/// What the framed-body decoder reads does not change when more input follows.
pub proof fn lemma_u16_item_u32_prefix(v: DapVersion, s: Seq<u8>, extra: Seq<u8>)
    ensures
        dec_u16_item_u32(v, s) matches Ok((x, rest)) ==> dec_u16_item_u32(v, s + extra) == Ok::<
            _,
            CodecError,
        >((x, rest + extra)),
{
    match v {
        DapVersion::Draft07 => {
            lemma_prefixed_u16_prefix(s, extra);
        },
        DapVersion::Draft02 => {
            lemma_u32_prefix(s, extra);
        },
    }
}

/// What the framed-body decoder reads does not change when more input follows.
pub proof fn lemma_u16_item_unit_prefix(v: DapVersion, s: Seq<u8>, extra: Seq<u8>)
    ensures
        dec_u16_item_unit(v, s) matches Ok(rest) ==> dec_u16_item_unit(v, s + extra) == Ok::<
            Seq<u8>,
            CodecError,
        >(rest + extra),
{
    match v {
        DapVersion::Draft07 => {
            lemma_prefixed_u16_prefix(s, extra);
        },
        DapVersion::Draft02 => {
        },
    }
}

/// A 32-bit body, framed or bare according to the draft.
pub fn encode_u16_item_u32(bytes: &mut Vec<u8>, v: DapVersion, x: u32)
    ensures
        final(bytes)@ == old(bytes)@ + enc_u16_item_u32(v, x),
{
    match v {
        DapVersion::Draft07 => {
            encode_u16(bytes, 4);
            encode_u32(bytes, x);
            proof {
                assert(bytes@ =~= old(bytes)@ + enc_u16_item_u32(v, x));
            }
        },
        DapVersion::Draft02 => {
            encode_u32(bytes, x);
        },
    }
}

/// Read a 32-bit body, framed or bare according to the draft.
pub fn decode_u16_item_u32(v: DapVersion, bytes: &[u8], pos: &mut usize) -> (r: Result<
    u32,
    CodecError,
>)
    requires
        *old(pos) <= bytes@.len(),
    ensures
        *old(pos) <= *final(pos) <= bytes@.len(),
        match r {
            Ok(x) => dec_u16_item_u32(v, bytes@.skip(*old(pos) as int)) == Ok::<_, CodecError>(
                (x, bytes@.skip(*final(pos) as int)),
            ),
            Err(e) => dec_u16_item_u32(v, bytes@.skip(*old(pos) as int)) == Err::<
                (u32, Seq<u8>),
                CodecError,
            >(e),
        },
{
    match v {
        DapVersion::Draft07 => {
            let body = decode_u16_bytes(bytes, pos)?;
            let mut bpos: usize = 0;
            proof {
                assert(body@.skip(0) =~= body@);
            }
            let x = decode_u32(body.as_slice(), &mut bpos)?;
            if bpos != body.len() {
                return Err(CodecError::UnexpectedValue);
            }
            Ok(x)
        },
        DapVersion::Draft02 => decode_u32(bytes, pos),
    }
}

/// An empty body, framed or bare according to the draft.
pub fn encode_u16_item_unit(bytes: &mut Vec<u8>, v: DapVersion)
    ensures
        final(bytes)@ == old(bytes)@ + enc_u16_item_unit(v),
{
    match v {
        DapVersion::Draft07 => {
            encode_u16(bytes, 0);
        },
        DapVersion::Draft02 => {
            proof {
                assert(bytes@ =~= old(bytes)@ + enc_u16_item_unit(v));
            }
        },
    }
}

/// Read an empty body, framed or bare according to the draft.
pub fn decode_u16_item_unit(v: DapVersion, bytes: &[u8], pos: &mut usize) -> (r: Result<
    (),
    CodecError,
>)
    requires
        *old(pos) <= bytes@.len(),
    ensures
        *old(pos) <= *final(pos) <= bytes@.len(),
        match r {
            Ok(()) => dec_u16_item_unit(v, bytes@.skip(*old(pos) as int)) == Ok::<Seq<u8>, CodecError>(
                bytes@.skip(*final(pos) as int),
            ),
            Err(e) => dec_u16_item_unit(v, bytes@.skip(*old(pos) as int)) == Err::<
                Seq<u8>,
                CodecError,
            >(e),
        },
{
    match v {
        DapVersion::Draft07 => {
            let body = decode_u16_bytes(bytes, pos)?;
            if body.len() != 0 {
                return Err(CodecError::UnexpectedValue);
            }
            Ok(())
        },
        DapVersion::Draft02 => Ok(()),
    }
}

/// A URL carried on the wire as a length-prefixed byte string.
#[derive(Clone, Debug, PartialEq, Eq)]
pub struct UrlBytes {
    pub bytes: Vec<u8>,
}

/// The mathematical value of a [`UrlBytes`].
pub struct UrlBytesView {
    pub bytes: Seq<u8>,
}

impl View for UrlBytes {
    type V = UrlBytesView;

    open spec fn view(&self) -> UrlBytesView {
        UrlBytesView { bytes: self.bytes@ }
    }
}

impl DeepView for UrlBytes {
    type V = UrlBytesView;

    open spec fn deep_view(&self) -> UrlBytesView {
        self.view()
    }
}

impl WireValue for UrlBytesView {
    open spec fn encoding(self) -> Seq<u8> {
        enc_prefixed_u16(self.bytes)
    }

    open spec fn encodable(self) -> bool {
        fits_u16(self.bytes)
    }

    open spec fn wf(self) -> bool {
        fits_u16(self.bytes)
    }

    open spec fn dec(s: Seq<u8>) -> Result<(UrlBytesView, Seq<u8>), CodecError> {
        match dec_prefixed_u16(s) {
            Err(e) => Err(e),
            Ok((bytes, s)) => Ok((UrlBytesView { bytes }, s)),
        }
    }

    proof fn lemma_round_trip(t: UrlBytesView, rest: Seq<u8>) {
        lemma_prefixed_u16_round_trip(t.bytes, rest);
    }

    proof fn lemma_canonical(s: Seq<u8>) {
        lemma_prefixed_u16_canonical(s);
    }
}

impl UrlBytesView {
    /// What the decoder reads does not change when more input follows.
    pub proof fn lemma_prefix(s: Seq<u8>, extra: Seq<u8>)
        ensures
            Self::dec(s) matches Ok((t, rest)) ==> Self::dec(s + extra) == Ok::<_, CodecError>(
                (t, rest + extra),
            ),
    {
        lemma_prefixed_u16_prefix(s, extra);
    }
}

impl UrlBytes {
    pub fn encode(&self, bytes: &mut Vec<u8>) -> (r: Result<(), CodecError>)
        ensures
            r is Ok <==> self@.encodable(),
            r is Ok ==> final(bytes)@ == old(bytes)@ + self@.encoding(),
    {
        encode_u16_bytes(bytes, self.bytes.as_slice())
    }

    pub fn decode(bytes: &[u8], pos: &mut usize) -> (r: Result<UrlBytes, CodecError>)
        requires
            *old(pos) <= bytes@.len(),
        ensures
            *old(pos) <= *final(pos) <= bytes@.len(),
            match r {
                Ok(t) => UrlBytesView::dec(bytes@.skip(*old(pos) as int)) == Ok::<_, CodecError>(
                    (t@, bytes@.skip(*final(pos) as int)),
                ),
                Err(e) => UrlBytesView::dec(bytes@.skip(*old(pos) as int)) == Err::<
                    (UrlBytesView, Seq<u8>),
                    CodecError,
                >(e),
            },
    {
        let data = decode_u16_bytes(bytes, pos)?;
        Ok(UrlBytes { bytes: data })
    }
}

/// Decode URL values until the input is exhausted.
fn decode_url_items(body: &[u8]) -> (r: Result<Vec<UrlBytes>, CodecError>)
    ensures
        match r {
            Ok(items) => dec_items::<UrlBytesView>(body@) == Ok::<_, CodecError>(
                items.deep_view(),
            ),
            Err(e) => dec_items::<UrlBytesView>(body@) == Err::<Seq<UrlBytesView>, CodecError>(e),
        },
{
    let mut items: Vec<UrlBytes> = Vec::new();
    let mut bpos: usize = 0;
    proof {
        assert(body@.skip(0) =~= body@);
        assert(items.deep_view() =~= Seq::<UrlBytesView>::empty());
        assert(items.deep_view() + Seq::<UrlBytesView>::empty() =~= items.deep_view());
    }
    while bpos < body.len()
        invariant
            bpos <= body@.len(),
            ({
                let d = dec_items::<UrlBytesView>(body@);
                match dec_items::<UrlBytesView>(body@.skip(bpos as int)) {
                    Ok(ts) => d == Ok::<_, CodecError>(items.deep_view() + ts),
                    Err(e) => d == Err::<Seq<UrlBytesView>, CodecError>(e),
                }
            }),
        decreases body@.len() - bpos,
    {
        let prev: usize = bpos;
        let ghost items0 = items.deep_view();
        let item = match UrlBytes::decode(body, &mut bpos) {
            Ok(t) => t,
            Err(e) => {
                return Err(e);
            },
        };
        if bpos <= prev {
            proof {
                assert(body@.skip(bpos as int).len() >= body@.skip(prev as int).len());
            }
            return Err(CodecError::UnexpectedValue);
        }
        items.push(item);
        proof {
            assert(body@.skip(bpos as int).len() < body@.skip(prev as int).len());
            assert(items.deep_view() =~= items0.push(item@));
            if dec_items::<UrlBytesView>(body@.skip(bpos as int)) is Ok {
                let ts = dec_items::<UrlBytesView>(body@.skip(bpos as int))->Ok_0;
                assert(dec_items::<UrlBytesView>(body@.skip(prev as int)) == Ok::<_, CodecError>(
                    seq![item@] + ts,
                ));
                assert(items0 + (seq![item@] + ts) =~= items.deep_view() + ts);
            }
        }
    }
    proof {
        assert(body@.skip(bpos as int) =~= Seq::<u8>::empty());
        assert(items.deep_view() + Seq::<UrlBytesView>::empty() =~= items.deep_view());
    }
    Ok(items)
}

/// A differential privacy mechanism.
#[derive(Clone, Debug, PartialEq, Eq)]
pub enum DpConfig {
    NoDp,
    NotImplemented { typ: u8, param: Vec<u8> },
}

/// The mathematical value of a [`DpConfig`].
pub enum DpConfigView {
    NoDp,
    NotImplemented { typ: u8, param: Seq<u8> },
}

impl View for DpConfig {
    type V = DpConfigView;

    open spec fn view(&self) -> DpConfigView {
        match self {
            DpConfig::NoDp => DpConfigView::NoDp,
            DpConfig::NotImplemented { typ, param } => DpConfigView::NotImplemented {
                typ: *typ,
                param: param@,
            },
        }
    }
}

impl DeepView for DpConfig {
    type V = DpConfigView;

    open spec fn deep_view(&self) -> DpConfigView {
        self.view()
    }
}

impl DpConfigView {
    pub open spec fn encoding(self, v: DapVersion) -> Seq<u8> {
        match self {
            DpConfigView::NoDp => enc_u8(DP_MECHANISM_NONE) + enc_u16_item_unit(v),
            DpConfigView::NotImplemented { typ, param } => enc_u8(typ) + (match v {
                DapVersion::Draft07 => enc_prefixed_u16(param),
                DapVersion::Draft02 => param,
            }),
        }
    }

    pub open spec fn encodable(self, v: DapVersion) -> bool {
        match self {
            DpConfigView::NoDp => true,
            DpConfigView::NotImplemented { typ, param } => v is Draft07 ==> fits_u16(param),
        }
    }

    /// Well-formed values survive a round trip: an unimplemented mechanism
    /// does so only under the later draft, and never hides the known code.
    pub open spec fn wf(self, v: DapVersion) -> bool {
        match self {
            DpConfigView::NoDp => true,
            DpConfigView::NotImplemented { typ, param } => v is Draft07 && typ != DP_MECHANISM_NONE
                && fits_u16(param),
        }
    }

    pub open spec fn dec(v: DapVersion, s: Seq<u8>) -> Result<(DpConfigView, Seq<u8>), CodecError> {
        match dec_u8(s) {
            Err(e) => Err(e),
            Ok((t, s)) => if t == DP_MECHANISM_NONE {
                match dec_u16_item_unit(v, s) {
                    Err(e) => Err(e),
                    Ok(rest) => Ok((DpConfigView::NoDp, rest)),
                }
            } else {
                match v {
                    DapVersion::Draft07 => match dec_prefixed_u16(s) {
                        Err(e) => Err(e),
                        Ok((param, rest)) => Ok(
                            (DpConfigView::NotImplemented { typ: t, param }, rest),
                        ),
                    },
                    DapVersion::Draft02 => Err(CodecError::UnexpectedValue),
                }
            },
        }
    }

    /// Decoding inverts encoding on every well-formed mechanism.
    pub proof fn lemma_round_trip(t: DpConfigView, v: DapVersion, rest: Seq<u8>)
        requires
            t.wf(v),
        ensures
            Self::dec(v, t.encoding(v) + rest) == Ok::<_, CodecError>((t, rest)),
            t.encoding(v).len() >= 1,
    {
        match t {
            DpConfigView::NoDp => {
                lemma_concat3(enc_u8(DP_MECHANISM_NONE), enc_u16_item_unit(v), rest);
                lemma_u8_round_trip(DP_MECHANISM_NONE, enc_u16_item_unit(v) + rest);
                lemma_u16_item_unit_round_trip(v, rest);
            },
            DpConfigView::NotImplemented { typ, param } => {
                lemma_concat3(enc_u8(typ), enc_prefixed_u16(param), rest);
                lemma_u8_round_trip(typ, enc_prefixed_u16(param) + rest);
                lemma_prefixed_u16_round_trip(param, rest);
            },
        }
    }

    /// Whatever decodes was the canonical encoding of what came out.
    pub proof fn lemma_canonical(v: DapVersion, s: Seq<u8>)
        ensures
            Self::dec(v, s) matches Ok((t, rest)) ==> t.wf(v) && t.encoding(v) + rest == s,
    {
        if dec_u8(s) is Ok {
            lemma_u8_canonical(s);
            let (tag, s1) = dec_u8(s)->Ok_0;
            if tag == DP_MECHANISM_NONE {
                lemma_u16_item_unit_canonical(v, s1);
                if dec_u16_item_unit(v, s1) is Ok {
                    let rest = dec_u16_item_unit(v, s1)->Ok_0;
                    lemma_concat3(enc_u8(DP_MECHANISM_NONE), enc_u16_item_unit(v), rest);
                }
            } else if v is Draft07 {
                lemma_prefixed_u16_canonical(s1);
                if dec_prefixed_u16(s1) is Ok {
                    let (param, rest) = dec_prefixed_u16(s1)->Ok_0;
                    lemma_concat3(enc_u8(tag), enc_prefixed_u16(param), rest);
                }
            }
        }
    }

    /// What the decoder reads does not change when more input follows.
    pub proof fn lemma_prefix(v: DapVersion, s: Seq<u8>, extra: Seq<u8>)
        ensures
            Self::dec(v, s) matches Ok((t, rest)) ==> Self::dec(v, s + extra) == Ok::<
                _,
                CodecError,
            >((t, rest + extra)),
    {
        lemma_u8_prefix(s, extra);
        if dec_u8(s) is Ok {
            let (tag, s1) = dec_u8(s)->Ok_0;
            if tag == DP_MECHANISM_NONE {
                lemma_u16_item_unit_prefix(v, s1, extra);
            } else if v is Draft07 {
                lemma_prefixed_u16_prefix(s1, extra);
            }
        }
    }

    /// A buffer truncated by at least one byte anywhere inside a well-formed
    /// mechanism fails to decode in full.
    pub proof fn lemma_truncation(t: DpConfigView, v: DapVersion, k: int)
        requires
            t.wf(v),
            0 <= k < t.encoding(v).len(),
        ensures
            dec_full(Self::dec(v, t.encoding(v).take(k))) is Err,
    {
        let enc = t.encoding(v);
        let p = enc.take(k);
        if Self::dec(v, p) is Ok {
            let (u, rest) = Self::dec(v, p)->Ok_0;
            if rest.len() == 0 {
                Self::lemma_prefix(v, p, enc.skip(k));
                crate::codec::lemma_take_skip(enc, k);
                Self::lemma_round_trip(t, v, Seq::empty());
                crate::codec::lemma_add_empty_right(enc);
                crate::codec::lemma_add_empty_left(enc.skip(k));
                assert(false);
            }
        }
    }

    /// Under the earlier draft an unimplemented mechanism cannot be decoded:
    /// its parameter streams to the end of the message, so decoding the
    /// encoding fails whatever the parameter holds.
    pub proof fn lemma_draft02_refuses_not_implemented(typ: u8, param: Seq<u8>, rest: Seq<u8>)
        requires
            typ != DP_MECHANISM_NONE,
        ensures
            Self::dec(
                DapVersion::Draft02,
                (DpConfigView::NotImplemented { typ, param }).encoding(DapVersion::Draft02) + rest,
            ) is Err,
    {
        lemma_u8_round_trip(typ, param + rest);
        assert((DpConfigView::NotImplemented { typ, param }).encoding(DapVersion::Draft02) + rest
            =~= enc_u8(typ) + (param + rest));
    }
}

impl DpConfig {
    pub fn encode_with_param(&self, version: DapVersion, bytes: &mut Vec<u8>) -> (r: Result<
        (),
        CodecError,
    >)
        ensures
            r is Ok <==> self@.encodable(version),
            r is Ok ==> final(bytes)@ == old(bytes)@ + self@.encoding(version),
    {
        match self {
            DpConfig::NoDp => {
                encode_u8(bytes, DP_MECHANISM_NONE);
                encode_u16_item_unit(bytes, version);
            },
            DpConfig::NotImplemented { typ, param } => {
                encode_u8(bytes, *typ);
                match version {
                    DapVersion::Draft07 => {
                        encode_u16_bytes(bytes, param.as_slice())?;
                    },
                    DapVersion::Draft02 => {
                        encode_raw(bytes, param.as_slice());
                    },
                }
            },
        }
        proof {
            assert(bytes@ =~= old(bytes)@ + self@.encoding(version));
        }
        Ok(())
    }

    pub fn decode_with_param(version: DapVersion, bytes: &[u8], pos: &mut usize) -> (r: Result<
        DpConfig,
        CodecError,
    >)
        requires
            *old(pos) <= bytes@.len(),
        ensures
            *old(pos) <= *final(pos) <= bytes@.len(),
            match r {
                Ok(t) => DpConfigView::dec(version, bytes@.skip(*old(pos) as int)) == Ok::<
                    _,
                    CodecError,
                >((t@, bytes@.skip(*final(pos) as int))),
                Err(e) => DpConfigView::dec(version, bytes@.skip(*old(pos) as int)) == Err::<
                    (DpConfigView, Seq<u8>),
                    CodecError,
                >(e),
            },
    {
        let tag = decode_u8(bytes, pos)?;
        if tag == DP_MECHANISM_NONE {
            decode_u16_item_unit(version, bytes, pos)?;
            Ok(DpConfig::NoDp)
        } else {
            match version {
                DapVersion::Draft07 => {
                    let param = decode_u16_bytes(bytes, pos)?;
                    Ok(DpConfig::NotImplemented { typ: tag, param })
                },
                DapVersion::Draft02 => Err(CodecError::UnexpectedValue),
            }
        }
    }

    /// Encode to a fresh buffer.
    pub fn get_encoded_with_param(&self, version: DapVersion) -> (r: Result<Vec<u8>, CodecError>)
        ensures
            r is Ok <==> self@.encodable(version),
            r matches Ok(v) ==> v@ == self@.encoding(version),
    {
        let mut bytes: Vec<u8> = Vec::new();
        self.encode_with_param(version, &mut bytes)?;
        Ok(bytes)
    }

    /// Decode a buffer in full; leftover bytes are refused.
    pub fn get_decoded_with_param(version: DapVersion, data: &[u8]) -> (r: Result<
        DpConfig,
        CodecError,
    >)
        ensures
            match r {
                Ok(t) => dec_full(DpConfigView::dec(version, data@)) == Ok::<
                    DpConfigView,
                    CodecError,
                >(t@),
                Err(e) => dec_full(DpConfigView::dec(version, data@)) == Err::<
                    DpConfigView,
                    CodecError,
                >(e),
            },
    {
        let mut pos: usize = 0;
        proof {
            assert(data@.skip(0) =~= data@);
        }
        let t = Self::decode_with_param(version, data, &mut pos)?;
        if pos != data.len() {
            return Err(CodecError::UnexpectedValue);
        }
        proof {
            assert(data@.skip(pos as int) =~= Seq::<u8>::empty());
        }
        Ok(t)
    }
}

/// A VDAF type along with its type-specific data.
#[derive(Clone, Debug, PartialEq, Eq)]
pub enum VdafTypeVar {
    Prio2 { dimension: u32 },
    NotImplemented { typ: u32, param: Vec<u8> },
}

/// The mathematical value of a [`VdafTypeVar`].
pub enum VdafTypeVarView {
    Prio2 { dimension: u32 },
    NotImplemented { typ: u32, param: Seq<u8> },
}

impl View for VdafTypeVar {
    type V = VdafTypeVarView;

    open spec fn view(&self) -> VdafTypeVarView {
        match self {
            VdafTypeVar::Prio2 { dimension } => VdafTypeVarView::Prio2 { dimension: *dimension },
            VdafTypeVar::NotImplemented { typ, param } => VdafTypeVarView::NotImplemented {
                typ: *typ,
                param: param@,
            },
        }
    }
}

impl DeepView for VdafTypeVar {
    type V = VdafTypeVarView;

    open spec fn deep_view(&self) -> VdafTypeVarView {
        self.view()
    }
}

impl VdafTypeVarView {
    pub open spec fn encoding(self, v: DapVersion) -> Seq<u8> {
        match self {
            VdafTypeVarView::Prio2 { dimension } => enc_u32(VDAF_TYPE_PRIO2) + enc_u16_item_u32(
                v,
                dimension,
            ),
            VdafTypeVarView::NotImplemented { typ, param } => enc_u32(typ) + (match v {
                DapVersion::Draft07 => enc_prefixed_u16(param),
                DapVersion::Draft02 => param,
            }),
        }
    }

    pub open spec fn encodable(self, v: DapVersion) -> bool {
        match self {
            VdafTypeVarView::Prio2 { dimension } => true,
            VdafTypeVarView::NotImplemented { typ, param } => v is Draft07 ==> fits_u16(param),
        }
    }

    /// Well-formed values survive a round trip: an unimplemented type does so
    /// only under the later draft, and never hides the known code.
    pub open spec fn wf(self, v: DapVersion) -> bool {
        match self {
            VdafTypeVarView::Prio2 { dimension } => true,
            VdafTypeVarView::NotImplemented { typ, param } => v is Draft07 && typ
                != VDAF_TYPE_PRIO2 && fits_u16(param),
        }
    }

    pub open spec fn dec(v: DapVersion, s: Seq<u8>) -> Result<
        (VdafTypeVarView, Seq<u8>),
        CodecError,
    > {
        match dec_u32(s) {
            Err(e) => Err(e),
            Ok((t, s)) => if t == VDAF_TYPE_PRIO2 {
                match dec_u16_item_u32(v, s) {
                    Err(e) => Err(e),
                    Ok((dimension, rest)) => Ok((VdafTypeVarView::Prio2 { dimension }, rest)),
                }
            } else {
                match v {
                    DapVersion::Draft07 => match dec_prefixed_u16(s) {
                        Err(e) => Err(e),
                        Ok((param, rest)) => Ok(
                            (VdafTypeVarView::NotImplemented { typ: t, param }, rest),
                        ),
                    },
                    DapVersion::Draft02 => Err(CodecError::UnexpectedValue),
                }
            },
        }
    }

    /// Decoding inverts encoding on every well-formed value.
    pub proof fn lemma_round_trip(t: VdafTypeVarView, v: DapVersion, rest: Seq<u8>)
        requires
            t.wf(v),
        ensures
            Self::dec(v, t.encoding(v) + rest) == Ok::<_, CodecError>((t, rest)),
            t.encoding(v).len() >= 1,
    {
        match t {
            VdafTypeVarView::Prio2 { dimension } => {
                lemma_concat3(enc_u32(VDAF_TYPE_PRIO2), enc_u16_item_u32(v, dimension), rest);
                lemma_u32_round_trip(VDAF_TYPE_PRIO2, enc_u16_item_u32(v, dimension) + rest);
                lemma_u16_item_u32_round_trip(v, dimension, rest);
            },
            VdafTypeVarView::NotImplemented { typ, param } => {
                lemma_concat3(enc_u32(typ), enc_prefixed_u16(param), rest);
                lemma_u32_round_trip(typ, enc_prefixed_u16(param) + rest);
                lemma_prefixed_u16_round_trip(param, rest);
            },
        }
    }

    /// Whatever decodes was the canonical encoding of what came out.
    pub proof fn lemma_canonical(v: DapVersion, s: Seq<u8>)
        ensures
            Self::dec(v, s) matches Ok((t, rest)) ==> t.wf(v) && t.encoding(v) + rest == s,
    {
        if dec_u32(s) is Ok {
            lemma_u32_canonical(s);
            let (tag, s1) = dec_u32(s)->Ok_0;
            if tag == VDAF_TYPE_PRIO2 {
                lemma_u16_item_u32_canonical(v, s1);
                if dec_u16_item_u32(v, s1) is Ok {
                    let (dimension, rest) = dec_u16_item_u32(v, s1)->Ok_0;
                    lemma_concat3(enc_u32(VDAF_TYPE_PRIO2), enc_u16_item_u32(v, dimension), rest);
                }
            } else if v is Draft07 {
                lemma_prefixed_u16_canonical(s1);
                if dec_prefixed_u16(s1) is Ok {
                    let (param, rest) = dec_prefixed_u16(s1)->Ok_0;
                    lemma_concat3(enc_u32(tag), enc_prefixed_u16(param), rest);
                }
            }
        }
    }

    /// What the decoder reads does not change when more input follows.
    pub proof fn lemma_prefix(v: DapVersion, s: Seq<u8>, extra: Seq<u8>)
        ensures
            Self::dec(v, s) matches Ok((t, rest)) ==> Self::dec(v, s + extra) == Ok::<
                _,
                CodecError,
            >((t, rest + extra)),
    {
        lemma_u32_prefix(s, extra);
        if dec_u32(s) is Ok {
            let (tag, s1) = dec_u32(s)->Ok_0;
            if tag == VDAF_TYPE_PRIO2 {
                lemma_u16_item_u32_prefix(v, s1, extra);
            } else if v is Draft07 {
                lemma_prefixed_u16_prefix(s1, extra);
            }
        }
    }

    /// Under the earlier draft an unimplemented VDAF type cannot be decoded.
    pub proof fn lemma_draft02_refuses_not_implemented(typ: u32, param: Seq<u8>, rest: Seq<u8>)
        requires
            typ != VDAF_TYPE_PRIO2,
        ensures
            Self::dec(
                DapVersion::Draft02,
                (VdafTypeVarView::NotImplemented { typ, param }).encoding(DapVersion::Draft02)
                    + rest,
            ) is Err,
    {
        lemma_u32_round_trip(typ, param + rest);
        assert((VdafTypeVarView::NotImplemented { typ, param }).encoding(DapVersion::Draft02)
            + rest =~= enc_u32(typ) + (param + rest));
    }
}

impl VdafTypeVar {
    pub fn encode_with_param(&self, version: DapVersion, bytes: &mut Vec<u8>) -> (r: Result<
        (),
        CodecError,
    >)
        ensures
            r is Ok <==> self@.encodable(version),
            r is Ok ==> final(bytes)@ == old(bytes)@ + self@.encoding(version),
    {
        match self {
            VdafTypeVar::Prio2 { dimension } => {
                encode_u32(bytes, VDAF_TYPE_PRIO2);
                encode_u16_item_u32(bytes, version, *dimension);
            },
            VdafTypeVar::NotImplemented { typ, param } => {
                encode_u32(bytes, *typ);
                match version {
                    DapVersion::Draft07 => {
                        encode_u16_bytes(bytes, param.as_slice())?;
                    },
                    DapVersion::Draft02 => {
                        encode_raw(bytes, param.as_slice());
                    },
                }
            },
        }
        proof {
            assert(bytes@ =~= old(bytes)@ + self@.encoding(version));
        }
        Ok(())
    }

    pub fn decode_with_param(version: DapVersion, bytes: &[u8], pos: &mut usize) -> (r: Result<
        VdafTypeVar,
        CodecError,
    >)
        requires
            *old(pos) <= bytes@.len(),
        ensures
            *old(pos) <= *final(pos) <= bytes@.len(),
            match r {
                Ok(t) => VdafTypeVarView::dec(version, bytes@.skip(*old(pos) as int)) == Ok::<
                    _,
                    CodecError,
                >((t@, bytes@.skip(*final(pos) as int))),
                Err(e) => VdafTypeVarView::dec(version, bytes@.skip(*old(pos) as int)) == Err::<
                    (VdafTypeVarView, Seq<u8>),
                    CodecError,
                >(e),
            },
    {
        let tag = decode_u32(bytes, pos)?;
        if tag == VDAF_TYPE_PRIO2 {
            let dimension = decode_u16_item_u32(version, bytes, pos)?;
            Ok(VdafTypeVar::Prio2 { dimension })
        } else {
            match version {
                DapVersion::Draft07 => {
                    let param = decode_u16_bytes(bytes, pos)?;
                    Ok(VdafTypeVar::NotImplemented { typ: tag, param })
                },
                DapVersion::Draft02 => Err(CodecError::UnexpectedValue),
            }
        }
    }
}

/// A VDAF configuration: a differential privacy configuration together with a
/// VDAF type and its type-specific data.
#[derive(Clone, Debug, PartialEq, Eq)]
pub struct VdafConfig {
    pub dp_config: DpConfig,
    pub var: VdafTypeVar,
}

/// The mathematical value of a [`VdafConfig`].
pub struct VdafConfigView {
    pub dp_config: DpConfigView,
    pub var: VdafTypeVarView,
}

impl View for VdafConfig {
    type V = VdafConfigView;

    open spec fn view(&self) -> VdafConfigView {
        VdafConfigView { dp_config: self.dp_config@, var: self.var@ }
    }
}

impl DeepView for VdafConfig {
    type V = VdafConfigView;

    open spec fn deep_view(&self) -> VdafConfigView {
        self.view()
    }
}

impl VdafConfigView {
    pub open spec fn encoding(self, v: DapVersion) -> Seq<u8> {
        self.dp_config.encoding(v) + self.var.encoding(v)
    }

    pub open spec fn encodable(self, v: DapVersion) -> bool {
        self.dp_config.encodable(v) && self.var.encodable(v)
    }

    pub open spec fn wf(self, v: DapVersion) -> bool {
        self.dp_config.wf(v) && self.var.wf(v)
    }

    pub open spec fn dec(v: DapVersion, s: Seq<u8>) -> Result<
        (VdafConfigView, Seq<u8>),
        CodecError,
    > {
        match DpConfigView::dec(v, s) {
            Err(e) => Err(e),
            Ok((dp_config, s)) => match VdafTypeVarView::dec(v, s) {
                Err(e) => Err(e),
                Ok((var, s)) => Ok((VdafConfigView { dp_config, var }, s)),
            },
        }
    }

    /// Decoding inverts encoding on every well-formed configuration.
    pub proof fn lemma_round_trip(t: VdafConfigView, v: DapVersion, rest: Seq<u8>)
        requires
            t.wf(v),
        ensures
            Self::dec(v, t.encoding(v) + rest) == Ok::<_, CodecError>((t, rest)),
            t.encoding(v).len() >= 1,
    {
        lemma_concat3(t.dp_config.encoding(v), t.var.encoding(v), rest);
        DpConfigView::lemma_round_trip(t.dp_config, v, t.var.encoding(v) + rest);
        VdafTypeVarView::lemma_round_trip(t.var, v, rest);
    }

    /// Whatever decodes was the canonical encoding of what came out.
    pub proof fn lemma_canonical(v: DapVersion, s: Seq<u8>)
        ensures
            Self::dec(v, s) matches Ok((t, rest)) ==> t.wf(v) && t.encoding(v) + rest == s,
    {
        if Self::dec(v, s) is Ok {
            DpConfigView::lemma_canonical(v, s);
            let (dp_config, s1) = DpConfigView::dec(v, s)->Ok_0;
            VdafTypeVarView::lemma_canonical(v, s1);
            let (var, rest) = VdafTypeVarView::dec(v, s1)->Ok_0;
            lemma_concat3(dp_config.encoding(v), var.encoding(v), rest);
        }
    }

    /// What the decoder reads does not change when more input follows.
    pub proof fn lemma_prefix(v: DapVersion, s: Seq<u8>, extra: Seq<u8>)
        ensures
            Self::dec(v, s) matches Ok((t, rest)) ==> Self::dec(v, s + extra) == Ok::<
                _,
                CodecError,
            >((t, rest + extra)),
    {
        DpConfigView::lemma_prefix(v, s, extra);
        if DpConfigView::dec(v, s) is Ok {
            let (dp_config, s1) = DpConfigView::dec(v, s)->Ok_0;
            VdafTypeVarView::lemma_prefix(v, s1, extra);
        }
    }

    /// A buffer truncated by at least one byte anywhere inside a well-formed
    /// configuration fails to decode in full.
    pub proof fn lemma_truncation(t: VdafConfigView, v: DapVersion, k: int)
        requires
            t.wf(v),
            0 <= k < t.encoding(v).len(),
        ensures
            dec_full(Self::dec(v, t.encoding(v).take(k))) is Err,
    {
        let enc = t.encoding(v);
        let p = enc.take(k);
        if Self::dec(v, p) is Ok {
            let (u, rest) = Self::dec(v, p)->Ok_0;
            if rest.len() == 0 {
                Self::lemma_prefix(v, p, enc.skip(k));
                crate::codec::lemma_take_skip(enc, k);
                Self::lemma_round_trip(t, v, Seq::empty());
                crate::codec::lemma_add_empty_right(enc);
                crate::codec::lemma_add_empty_left(enc.skip(k));
                assert(false);
            }
        }
    }

    /// Under the earlier draft a configuration whose VDAF type is
    /// unimplemented cannot be decoded, whatever its parameter bytes.
    pub proof fn lemma_draft02_refuses_not_implemented(typ: u32, param: Seq<u8>, rest: Seq<u8>)
        requires
            typ != VDAF_TYPE_PRIO2,
        ensures
            Self::dec(
                DapVersion::Draft02,
                (VdafConfigView {
                    dp_config: DpConfigView::NoDp,
                    var: VdafTypeVarView::NotImplemented { typ, param },
                }).encoding(DapVersion::Draft02) + rest,
            ) is Err,
    {
        let v = DapVersion::Draft02;
        let var = VdafTypeVarView::NotImplemented { typ, param };
        let dp = DpConfigView::NoDp;
        lemma_concat3(dp.encoding(v), var.encoding(v), rest);
        DpConfigView::lemma_round_trip(dp, v, var.encoding(v) + rest);
        VdafTypeVarView::lemma_draft02_refuses_not_implemented(typ, param, rest);
    }
}

impl VdafConfig {
    pub fn encode_with_param(&self, version: DapVersion, bytes: &mut Vec<u8>) -> (r: Result<
        (),
        CodecError,
    >)
        ensures
            r is Ok <==> self@.encodable(version),
            r is Ok ==> final(bytes)@ == old(bytes)@ + self@.encoding(version),
    {
        self.dp_config.encode_with_param(version, bytes)?;
        self.var.encode_with_param(version, bytes)?;
        proof {
            assert(bytes@ =~= old(bytes)@ + self@.encoding(version));
        }
        Ok(())
    }

    pub fn decode_with_param(version: DapVersion, bytes: &[u8], pos: &mut usize) -> (r: Result<
        VdafConfig,
        CodecError,
    >)
        requires
            *old(pos) <= bytes@.len(),
        ensures
            *old(pos) <= *final(pos) <= bytes@.len(),
            match r {
                Ok(t) => VdafConfigView::dec(version, bytes@.skip(*old(pos) as int)) == Ok::<
                    _,
                    CodecError,
                >((t@, bytes@.skip(*final(pos) as int))),
                Err(e) => VdafConfigView::dec(version, bytes@.skip(*old(pos) as int)) == Err::<
                    (VdafConfigView, Seq<u8>),
                    CodecError,
                >(e),
            },
    {
        let dp_config = DpConfig::decode_with_param(version, bytes, pos)?;
        let var = VdafTypeVar::decode_with_param(version, bytes, pos)?;
        Ok(VdafConfig { dp_config, var })
    }

    /// Encode to a fresh buffer.
    pub fn get_encoded_with_param(&self, version: DapVersion) -> (r: Result<Vec<u8>, CodecError>)
        ensures
            r is Ok <==> self@.encodable(version),
            r matches Ok(v) ==> v@ == self@.encoding(version),
    {
        let mut bytes: Vec<u8> = Vec::new();
        self.encode_with_param(version, &mut bytes)?;
        Ok(bytes)
    }

    /// Decode a buffer in full; leftover bytes are refused.
    pub fn get_decoded_with_param(version: DapVersion, data: &[u8]) -> (r: Result<
        VdafConfig,
        CodecError,
    >)
        ensures
            match r {
                Ok(t) => dec_full(VdafConfigView::dec(version, data@)) == Ok::<
                    VdafConfigView,
                    CodecError,
                >(t@),
                Err(e) => dec_full(VdafConfigView::dec(version, data@)) == Err::<
                    VdafConfigView,
                    CodecError,
                >(e),
            },
    {
        let mut pos: usize = 0;
        proof {
            assert(data@.skip(0) =~= data@);
        }
        let t = Self::decode_with_param(version, data, &mut pos)?;
        if pos != data.len() {
            return Err(CodecError::UnexpectedValue);
        }
        proof {
            assert(data@.skip(pos as int) =~= Seq::<u8>::empty());
        }
        Ok(t)
    }
}

/// A query-configuration variant and its associated data.
#[derive(Clone, Debug, PartialEq, Eq)]
pub enum QueryConfigVar {
    TimeInterval,
    FixedSize { max_batch_size: u32 },
    NotImplemented { typ: u8, param: Vec<u8> },
}

/// The mathematical value of a [`QueryConfigVar`].
pub enum QueryConfigVarView {
    TimeInterval,
    FixedSize { max_batch_size: u32 },
    NotImplemented { typ: u8, param: Seq<u8> },
}

impl View for QueryConfigVar {
    type V = QueryConfigVarView;

    open spec fn view(&self) -> QueryConfigVarView {
        match self {
            QueryConfigVar::TimeInterval => QueryConfigVarView::TimeInterval,
            QueryConfigVar::FixedSize { max_batch_size } => QueryConfigVarView::FixedSize {
                max_batch_size: *max_batch_size,
            },
            QueryConfigVar::NotImplemented { typ, param } => QueryConfigVarView::NotImplemented {
                typ: *typ,
                param: param@,
            },
        }
    }
}

impl DeepView for QueryConfigVar {
    type V = QueryConfigVarView;

    open spec fn deep_view(&self) -> QueryConfigVarView {
        self.view()
    }
}

impl QueryConfigVarView {
    /// The single-byte query-type tag.
    pub open spec fn query_type(self) -> u8 {
        match self {
            QueryConfigVarView::TimeInterval => TASKPROV_QUERY_TYPE_TIME_INTERVAL,
            QueryConfigVarView::FixedSize { max_batch_size } => TASKPROV_QUERY_TYPE_FIXED_SIZE,
            QueryConfigVarView::NotImplemented { typ, param } => typ,
        }
    }

    /// The variant's body, after the tag.
    pub open spec fn body_encoding(self, v: DapVersion) -> Seq<u8> {
        match self {
            QueryConfigVarView::TimeInterval => enc_u16_item_unit(v),
            QueryConfigVarView::FixedSize { max_batch_size } => enc_u16_item_u32(
                v,
                max_batch_size,
            ),
            QueryConfigVarView::NotImplemented { typ, param } => match v {
                DapVersion::Draft07 => enc_prefixed_u16(param),
                DapVersion::Draft02 => param,
            },
        }
    }

    pub open spec fn encodable(self, v: DapVersion) -> bool {
        match self {
            QueryConfigVarView::NotImplemented { typ, param } => v is Draft07 ==> fits_u16(param),
            _ => true,
        }
    }

    /// Well-formed variants survive a round trip: an unimplemented query type
    /// does so only under the later draft, and never hides a known tag.
    pub open spec fn wf(self, v: DapVersion) -> bool {
        match self {
            QueryConfigVarView::NotImplemented { typ, param } => v is Draft07 && typ
                != TASKPROV_QUERY_TYPE_TIME_INTERVAL && typ != TASKPROV_QUERY_TYPE_FIXED_SIZE
                && fits_u16(param),
            _ => true,
        }
    }

    /// Read the variant's body, the tag already known.
    pub open spec fn dec_body(v: DapVersion, tag: u8, s: Seq<u8>) -> Result<
        (QueryConfigVarView, Seq<u8>),
        CodecError,
    > {
        if tag == TASKPROV_QUERY_TYPE_TIME_INTERVAL {
            match dec_u16_item_unit(v, s) {
                Err(e) => Err(e),
                Ok(rest) => Ok((QueryConfigVarView::TimeInterval, rest)),
            }
        } else if tag == TASKPROV_QUERY_TYPE_FIXED_SIZE {
            match dec_u16_item_u32(v, s) {
                Err(e) => Err(e),
                Ok((max_batch_size, rest)) => Ok(
                    (QueryConfigVarView::FixedSize { max_batch_size }, rest),
                ),
            }
        } else {
            match v {
                DapVersion::Draft07 => match dec_prefixed_u16(s) {
                    Err(e) => Err(e),
                    Ok((param, rest)) => Ok(
                        (QueryConfigVarView::NotImplemented { typ: tag, param }, rest),
                    ),
                },
                DapVersion::Draft02 => Err(CodecError::UnexpectedValue),
            }
        }
    }

    /// Reading the body inverts writing it, for every well-formed variant.
    pub proof fn lemma_body_round_trip(t: QueryConfigVarView, v: DapVersion, rest: Seq<u8>)
        requires
            t.wf(v),
        ensures
            Self::dec_body(v, t.query_type(), t.body_encoding(v) + rest) == Ok::<_, CodecError>(
                (t, rest),
            ),
    {
        match t {
            QueryConfigVarView::TimeInterval => {
                lemma_u16_item_unit_round_trip(v, rest);
            },
            QueryConfigVarView::FixedSize { max_batch_size } => {
                lemma_u16_item_u32_round_trip(v, max_batch_size, rest);
            },
            QueryConfigVarView::NotImplemented { typ, param } => {
                lemma_prefixed_u16_round_trip(param, rest);
            },
        }
    }

    /// Whatever body decodes was the canonical body of what came out, under
    /// the tag that was read.
    pub proof fn lemma_body_canonical(v: DapVersion, tag: u8, s: Seq<u8>)
        ensures
            Self::dec_body(v, tag, s) matches Ok((t, rest)) ==> t.wf(v) || (t.query_type() == tag
                && t.body_encoding(v) + rest == s),
            Self::dec_body(v, tag, s) matches Ok((t, rest)) ==> t.query_type() == tag
                && t.body_encoding(v) + rest == s && t.wf(v),
    {
        if tag == TASKPROV_QUERY_TYPE_TIME_INTERVAL {
            lemma_u16_item_unit_canonical(v, s);
        } else if tag == TASKPROV_QUERY_TYPE_FIXED_SIZE {
            lemma_u16_item_u32_canonical(v, s);
        } else if v is Draft07 {
            lemma_prefixed_u16_canonical(s);
        }
    }

    /// What the body decoder reads does not change when more input follows.
    pub proof fn lemma_body_prefix(v: DapVersion, tag: u8, s: Seq<u8>, extra: Seq<u8>)
        ensures
            Self::dec_body(v, tag, s) matches Ok((t, rest)) ==> Self::dec_body(v, tag, s + extra)
                == Ok::<_, CodecError>((t, rest + extra)),
    {
        if tag == TASKPROV_QUERY_TYPE_TIME_INTERVAL {
            lemma_u16_item_unit_prefix(v, s, extra);
        } else if tag == TASKPROV_QUERY_TYPE_FIXED_SIZE {
            lemma_u16_item_u32_prefix(v, s, extra);
        } else if v is Draft07 {
            lemma_prefixed_u16_prefix(s, extra);
        }
    }
}

/// A query configuration: the task's timing and batching parameters along with
/// the query-type variant.
#[derive(Clone, Debug, PartialEq, Eq)]
pub struct QueryConfig {
    pub time_precision: Duration,
    pub max_batch_query_count: u16,
    pub min_batch_size: u32,
    pub var: QueryConfigVar,
}

/// The mathematical value of a [`QueryConfig`].
pub struct QueryConfigView {
    pub time_precision: Duration,
    pub max_batch_query_count: u16,
    pub min_batch_size: u32,
    pub var: QueryConfigVarView,
}

impl View for QueryConfig {
    type V = QueryConfigView;

    open spec fn view(&self) -> QueryConfigView {
        QueryConfigView {
            time_precision: self.time_precision,
            max_batch_query_count: self.max_batch_query_count,
            min_batch_size: self.min_batch_size,
            var: self.var@,
        }
    }
}

impl DeepView for QueryConfig {
    type V = QueryConfigView;

    open spec fn deep_view(&self) -> QueryConfigView {
        self.view()
    }
}

impl QueryConfigView {
    /// The draft governs where the query-type tag sits: before the timing
    /// fields under Draft02, after them under Draft07.
    pub open spec fn encoding(self, v: DapVersion) -> Seq<u8> {
        match v {
            DapVersion::Draft02 => enc_u8(self.var.query_type()) + enc_u64(self.time_precision)
                + enc_u16(self.max_batch_query_count) + enc_u32(self.min_batch_size)
                + self.var.body_encoding(v),
            DapVersion::Draft07 => enc_u64(self.time_precision) + enc_u16(
                self.max_batch_query_count,
            ) + enc_u32(self.min_batch_size) + enc_u8(self.var.query_type())
                + self.var.body_encoding(v),
        }
    }

    pub open spec fn encodable(self, v: DapVersion) -> bool {
        self.var.encodable(v)
    }

    pub open spec fn wf(self, v: DapVersion) -> bool {
        self.var.wf(v)
    }

    pub open spec fn dec(v: DapVersion, s: Seq<u8>) -> Result<
        (QueryConfigView, Seq<u8>),
        CodecError,
    > {
        match v {
            DapVersion::Draft02 => match dec_u8(s) {
                Err(e) => Err(e),
                Ok((tag, s)) => match dec_u64(s) {
                    Err(e) => Err(e),
                    Ok((time_precision, s)) => match dec_u16(s) {
                        Err(e) => Err(e),
                        Ok((max_batch_query_count, s)) => match dec_u32(s) {
                            Err(e) => Err(e),
                            Ok((min_batch_size, s)) => match QueryConfigVarView::dec_body(
                                v,
                                tag,
                                s,
                            ) {
                                Err(e) => Err(e),
                                Ok((var, rest)) => Ok(
                                    (
                                        QueryConfigView {
                                            time_precision,
                                            max_batch_query_count,
                                            min_batch_size,
                                            var,
                                        },
                                        rest,
                                    ),
                                ),
                            },
                        },
                    },
                },
            },
            DapVersion::Draft07 => match dec_u64(s) {
                Err(e) => Err(e),
                Ok((time_precision, s)) => match dec_u16(s) {
                    Err(e) => Err(e),
                    Ok((max_batch_query_count, s)) => match dec_u32(s) {
                        Err(e) => Err(e),
                        Ok((min_batch_size, s)) => match dec_u8(s) {
                            Err(e) => Err(e),
                            Ok((tag, s)) => match QueryConfigVarView::dec_body(v, tag, s) {
                                Err(e) => Err(e),
                                Ok((var, rest)) => Ok(
                                    (
                                        QueryConfigView {
                                            time_precision,
                                            max_batch_query_count,
                                            min_batch_size,
                                            var,
                                        },
                                        rest,
                                    ),
                                ),
                            },
                        },
                    },
                },
            },
        }
    }

    /// Decoding inverts encoding on every well-formed configuration.
    #[verifier::rlimit(60)]
    pub proof fn lemma_round_trip(t: QueryConfigView, v: DapVersion, rest: Seq<u8>)
        requires
            t.wf(v),
        ensures
            Self::dec(v, t.encoding(v) + rest) == Ok::<_, CodecError>((t, rest)),
            t.encoding(v).len() >= 1,
    {
        match v {
            DapVersion::Draft02 => {
                let s4 = t.var.body_encoding(v) + rest;
                let s3 = enc_u32(t.min_batch_size) + s4;
                let s2 = enc_u16(t.max_batch_query_count) + s3;
                let s1 = enc_u64(t.time_precision) + s2;
                lemma_concat6(
                    enc_u8(t.var.query_type()),
                    enc_u64(t.time_precision),
                    enc_u16(t.max_batch_query_count),
                    enc_u32(t.min_batch_size),
                    t.var.body_encoding(v),
                    rest,
                );
                lemma_u8_round_trip(t.var.query_type(), s1);
                lemma_u64_round_trip(t.time_precision, s2);
                lemma_u16_round_trip(t.max_batch_query_count, s3);
                lemma_u32_round_trip(t.min_batch_size, s4);
                QueryConfigVarView::lemma_body_round_trip(t.var, v, rest);
            },
            DapVersion::Draft07 => {
                let s4 = t.var.body_encoding(v) + rest;
                let s3 = enc_u8(t.var.query_type()) + s4;
                let s2 = enc_u32(t.min_batch_size) + s3;
                let s1 = enc_u16(t.max_batch_query_count) + s2;
                lemma_concat6(
                    enc_u64(t.time_precision),
                    enc_u16(t.max_batch_query_count),
                    enc_u32(t.min_batch_size),
                    enc_u8(t.var.query_type()),
                    t.var.body_encoding(v),
                    rest,
                );
                lemma_u64_round_trip(t.time_precision, s1);
                lemma_u16_round_trip(t.max_batch_query_count, s2);
                lemma_u32_round_trip(t.min_batch_size, s3);
                lemma_u8_round_trip(t.var.query_type(), s4);
                QueryConfigVarView::lemma_body_round_trip(t.var, v, rest);
            },
        }
    }

    /// Whatever decodes was the canonical encoding of what came out.
    #[verifier::rlimit(60)]
    pub proof fn lemma_canonical(v: DapVersion, s: Seq<u8>)
        ensures
            Self::dec(v, s) matches Ok((t, rest)) ==> t.wf(v) && t.encoding(v) + rest == s,
    {
        if Self::dec(v, s) is Ok {
            match v {
                DapVersion::Draft02 => {
                    lemma_u8_canonical(s);
                    let (tag, s1) = dec_u8(s)->Ok_0;
                    lemma_u64_canonical(s1);
                    let (time_precision, s2) = dec_u64(s1)->Ok_0;
                    lemma_u16_canonical(s2);
                    let (max_batch_query_count, s3) = dec_u16(s2)->Ok_0;
                    lemma_u32_canonical(s3);
                    let (min_batch_size, s4) = dec_u32(s3)->Ok_0;
                    QueryConfigVarView::lemma_body_canonical(v, tag, s4);
                    let (var, rest) = QueryConfigVarView::dec_body(v, tag, s4)->Ok_0;
                    lemma_concat6(
                        enc_u8(tag),
                        enc_u64(time_precision),
                        enc_u16(max_batch_query_count),
                        enc_u32(min_batch_size),
                        var.body_encoding(v),
                        rest,
                    );
                },
                DapVersion::Draft07 => {
                    lemma_u64_canonical(s);
                    let (time_precision, s1) = dec_u64(s)->Ok_0;
                    lemma_u16_canonical(s1);
                    let (max_batch_query_count, s2) = dec_u16(s1)->Ok_0;
                    lemma_u32_canonical(s2);
                    let (min_batch_size, s3) = dec_u32(s2)->Ok_0;
                    lemma_u8_canonical(s3);
                    let (tag, s4) = dec_u8(s3)->Ok_0;
                    QueryConfigVarView::lemma_body_canonical(v, tag, s4);
                    let (var, rest) = QueryConfigVarView::dec_body(v, tag, s4)->Ok_0;
                    lemma_concat6(
                        enc_u64(time_precision),
                        enc_u16(max_batch_query_count),
                        enc_u32(min_batch_size),
                        enc_u8(tag),
                        var.body_encoding(v),
                        rest,
                    );
                },
            }
        }
    }

    /// What the decoder reads does not change when more input follows.
    pub proof fn lemma_prefix(v: DapVersion, s: Seq<u8>, extra: Seq<u8>)
        ensures
            Self::dec(v, s) matches Ok((t, rest)) ==> Self::dec(v, s + extra) == Ok::<
                _,
                CodecError,
            >((t, rest + extra)),
    {
        match v {
            DapVersion::Draft02 => {
                lemma_u8_prefix(s, extra);
                if dec_u8(s) is Ok {
                    let (tag, s1) = dec_u8(s)->Ok_0;
                    lemma_u64_prefix(s1, extra);
                    if dec_u64(s1) is Ok {
                        let (tp, s2) = dec_u64(s1)->Ok_0;
                        lemma_u16_prefix(s2, extra);
                        if dec_u16(s2) is Ok {
                            let (mbqc, s3) = dec_u16(s2)->Ok_0;
                            lemma_u32_prefix(s3, extra);
                            if dec_u32(s3) is Ok {
                                let (mbs, s4) = dec_u32(s3)->Ok_0;
                                QueryConfigVarView::lemma_body_prefix(v, tag, s4, extra);
                            }
                        }
                    }
                }
            },
            DapVersion::Draft07 => {
                lemma_u64_prefix(s, extra);
                if dec_u64(s) is Ok {
                    let (tp, s1) = dec_u64(s)->Ok_0;
                    lemma_u16_prefix(s1, extra);
                    if dec_u16(s1) is Ok {
                        let (mbqc, s2) = dec_u16(s1)->Ok_0;
                        lemma_u32_prefix(s2, extra);
                        if dec_u32(s2) is Ok {
                            let (mbs, s3) = dec_u32(s2)->Ok_0;
                            lemma_u8_prefix(s3, extra);
                            if dec_u8(s3) is Ok {
                                let (tag, s4) = dec_u8(s3)->Ok_0;
                                QueryConfigVarView::lemma_body_prefix(v, tag, s4, extra);
                            }
                        }
                    }
                }
            },
        }
    }

    /// A buffer truncated by at least one byte anywhere inside a well-formed
    /// query configuration fails to decode in full.
    #[verifier::spinoff_prover]
    #[verifier::rlimit(100)]
    pub proof fn lemma_truncation(t: QueryConfigView, v: DapVersion, k: int)
        requires
            t.wf(v),
            0 <= k < t.encoding(v).len(),
        ensures
            dec_full(Self::dec(v, t.encoding(v).take(k))) is Err,
    {
        let enc = t.encoding(v);
        let p = enc.take(k);
        if Self::dec(v, p) is Ok {
            let (u, rest) = Self::dec(v, p)->Ok_0;
            if rest.len() == 0 {
                Self::lemma_prefix(v, p, enc.skip(k));
                crate::codec::lemma_take_skip(enc, k);
                Self::lemma_round_trip(t, v, Seq::empty());
                crate::codec::lemma_add_empty_right(enc);
                crate::codec::lemma_add_empty_left(enc.skip(k));
                assert(false);
            }
        }
    }

    /// Under the earlier draft a configuration whose query type is
    /// unimplemented cannot be decoded, whatever its parameter bytes.
    pub proof fn lemma_draft02_refuses_not_implemented(t: QueryConfigView, rest: Seq<u8>)
        requires
            t.var matches QueryConfigVarView::NotImplemented { typ, param } && typ
                != TASKPROV_QUERY_TYPE_TIME_INTERVAL && typ != TASKPROV_QUERY_TYPE_FIXED_SIZE,
        ensures
            Self::dec(DapVersion::Draft02, t.encoding(DapVersion::Draft02) + rest) is Err,
    {
        let v = DapVersion::Draft02;
        let s4 = t.var.body_encoding(v) + rest;
        let s3 = enc_u32(t.min_batch_size) + s4;
        let s2 = enc_u16(t.max_batch_query_count) + s3;
        let s1 = enc_u64(t.time_precision) + s2;
        lemma_concat6(
            enc_u8(t.var.query_type()),
            enc_u64(t.time_precision),
            enc_u16(t.max_batch_query_count),
            enc_u32(t.min_batch_size),
            t.var.body_encoding(v),
            rest,
        );
        lemma_u8_round_trip(t.var.query_type(), s1);
        lemma_u64_round_trip(t.time_precision, s2);
        lemma_u16_round_trip(t.max_batch_query_count, s3);
        lemma_u32_round_trip(t.min_batch_size, s4);
    }
}

impl QueryConfig {
    /// Write the single-byte query-type tag of this configuration's variant.
    pub fn encode_query_type(&self, bytes: &mut Vec<u8>)
        ensures
            final(bytes)@ == old(bytes)@ + enc_u8(self.var@.query_type()),
    {
        match &self.var {
            QueryConfigVar::TimeInterval => {
                encode_u8(bytes, TASKPROV_QUERY_TYPE_TIME_INTERVAL);
            },
            QueryConfigVar::FixedSize { .. } => {
                encode_u8(bytes, TASKPROV_QUERY_TYPE_FIXED_SIZE);
            },
            QueryConfigVar::NotImplemented { typ, .. } => {
                encode_u8(bytes, *typ);
            },
        }
    }

    pub fn encode_with_param(&self, version: DapVersion, bytes: &mut Vec<u8>) -> (r: Result<
        (),
        CodecError,
    >)
        ensures
            r is Ok <==> self@.encodable(version),
            r is Ok ==> final(bytes)@ == old(bytes)@ + self@.encoding(version),
    {
        match version {
            DapVersion::Draft02 => {
                self.encode_query_type(bytes);
            },
            DapVersion::Draft07 => {},
        }
        encode_u64(bytes, self.time_precision);
        encode_u16(bytes, self.max_batch_query_count);
        encode_u32(bytes, self.min_batch_size);
        match version {
            DapVersion::Draft07 => {
                self.encode_query_type(bytes);
            },
            DapVersion::Draft02 => {},
        }
        match &self.var {
            QueryConfigVar::TimeInterval => {
                encode_u16_item_unit(bytes, version);
            },
            QueryConfigVar::FixedSize { max_batch_size } => {
                encode_u16_item_u32(bytes, version, *max_batch_size);
            },
            QueryConfigVar::NotImplemented { typ, param } => {
                match version {
                    DapVersion::Draft07 => {
                        encode_u16_bytes(bytes, param.as_slice())?;
                    },
                    DapVersion::Draft02 => {
                        encode_raw(bytes, param.as_slice());
                    },
                }
            },
        }
        proof {
            assert(bytes@ =~= old(bytes)@ + self@.encoding(version));
        }
        Ok(())
    }

    pub fn decode_with_param(version: DapVersion, bytes: &[u8], pos: &mut usize) -> (r: Result<
        QueryConfig,
        CodecError,
    >)
        requires
            *old(pos) <= bytes@.len(),
        ensures
            *old(pos) <= *final(pos) <= bytes@.len(),
            match r {
                Ok(t) => QueryConfigView::dec(version, bytes@.skip(*old(pos) as int)) == Ok::<
                    _,
                    CodecError,
                >((t@, bytes@.skip(*final(pos) as int))),
                Err(e) => QueryConfigView::dec(version, bytes@.skip(*old(pos) as int)) == Err::<
                    (QueryConfigView, Seq<u8>),
                    CodecError,
                >(e),
            },
    {
        let mut early_tag: u8 = 0;
        let has_early_tag = match version {
            DapVersion::Draft02 => {
                early_tag = decode_u8(bytes, pos)?;
                true
            },
            DapVersion::Draft07 => false,
        };
        let time_precision = decode_u64(bytes, pos)?;
        let max_batch_query_count = decode_u16(bytes, pos)?;
        let min_batch_size = decode_u32(bytes, pos)?;
        let tag = if has_early_tag {
            early_tag
        } else {
            decode_u8(bytes, pos)?
        };
        let var = if tag == TASKPROV_QUERY_TYPE_TIME_INTERVAL {
            decode_u16_item_unit(version, bytes, pos)?;
            QueryConfigVar::TimeInterval
        } else if tag == TASKPROV_QUERY_TYPE_FIXED_SIZE {
            let max_batch_size = decode_u16_item_u32(version, bytes, pos)?;
            QueryConfigVar::FixedSize { max_batch_size }
        } else {
            match version {
                DapVersion::Draft07 => {
                    let param = decode_u16_bytes(bytes, pos)?;
                    QueryConfigVar::NotImplemented { typ: tag, param }
                },
                DapVersion::Draft02 => {
                    return Err(CodecError::UnexpectedValue);
                },
            }
        };
        Ok(QueryConfig { time_precision, max_batch_query_count, min_batch_size, var })
    }

    /// Encode to a fresh buffer.
    pub fn get_encoded_with_param(&self, version: DapVersion) -> (r: Result<Vec<u8>, CodecError>)
        ensures
            r is Ok <==> self@.encodable(version),
            r matches Ok(v) ==> v@ == self@.encoding(version),
    {
        let mut bytes: Vec<u8> = Vec::new();
        self.encode_with_param(version, &mut bytes)?;
        Ok(bytes)
    }

    /// Decode a buffer in full; leftover bytes are refused.
    pub fn get_decoded_with_param(version: DapVersion, data: &[u8]) -> (r: Result<
        QueryConfig,
        CodecError,
    >)
        ensures
            match r {
                Ok(t) => dec_full(QueryConfigView::dec(version, data@)) == Ok::<
                    QueryConfigView,
                    CodecError,
                >(t@),
                Err(e) => dec_full(QueryConfigView::dec(version, data@)) == Err::<
                    QueryConfigView,
                    CodecError,
                >(e),
            },
    {
        let mut pos: usize = 0;
        proof {
            assert(data@.skip(0) =~= data@);
        }
        let t = Self::decode_with_param(version, data, &mut pos)?;
        if pos != data.len() {
            return Err(CodecError::UnexpectedValue);
        }
        proof {
            assert(data@.skip(pos as int) =~= Seq::<u8>::empty());
        }
        Ok(t)
    }
}

/// A DAP task configuration provisioned in band.
#[derive(Clone, Debug, PartialEq, Eq)]
pub struct TaskConfig {
    pub task_info: Vec<u8>,
    pub leader_url: UrlBytes,
    pub helper_url: UrlBytes,
    pub query_config: QueryConfig,
    pub task_expiration: Time,
    pub vdaf_config: VdafConfig,
}

/// The mathematical value of a [`TaskConfig`].
pub struct TaskConfigView {
    pub task_info: Seq<u8>,
    pub leader_url: UrlBytesView,
    pub helper_url: UrlBytesView,
    pub query_config: QueryConfigView,
    pub task_expiration: Time,
    pub vdaf_config: VdafConfigView,
}

impl View for TaskConfig {
    type V = TaskConfigView;

    open spec fn view(&self) -> TaskConfigView {
        TaskConfigView {
            task_info: self.task_info@,
            leader_url: self.leader_url@,
            helper_url: self.helper_url@,
            query_config: self.query_config@,
            task_expiration: self.task_expiration,
            vdaf_config: self.vdaf_config@,
        }
    }
}

impl DeepView for TaskConfig {
    type V = TaskConfigView;

    open spec fn deep_view(&self) -> TaskConfigView {
        self.view()
    }
}

impl TaskConfigView {
    /// The two Aggregator endpoints: a length-prefixed two-element list under
    /// Draft02, two consecutive values under Draft07.
    pub open spec fn urls_encoding(self, v: DapVersion) -> Seq<u8> {
        match v {
            DapVersion::Draft02 => enc_prefixed_u16(
                items_encoding(seq![self.leader_url, self.helper_url]),
            ),
            DapVersion::Draft07 => self.leader_url.encoding() + self.helper_url.encoding(),
        }
    }

    pub open spec fn encoding(self, v: DapVersion) -> Seq<u8> {
        enc_prefixed_u8(self.task_info) + self.urls_encoding(v) + self.query_config.encoding(v)
            + enc_u64(self.task_expiration) + self.vdaf_config.encoding(v)
    }

    pub open spec fn encodable(self, v: DapVersion) -> bool {
        fits_u8(self.task_info) && self.leader_url.encodable() && self.helper_url.encodable() && (
        v is Draft02 ==> fits_u16(items_encoding(seq![self.leader_url, self.helper_url])))
            && self.query_config.encodable(v) && self.vdaf_config.encodable(v)
    }

    pub open spec fn wf(self, v: DapVersion) -> bool {
        fits_u8(self.task_info) && self.leader_url.wf() && self.helper_url.wf() && (v is Draft02
            ==> fits_u16(items_encoding(seq![self.leader_url, self.helper_url])))
            && self.query_config.wf(v) && self.vdaf_config.wf(v)
    }

    /// Read the two Aggregator endpoints; under Draft02 the list must hold
    /// exactly two.
    pub open spec fn dec_urls(v: DapVersion, s: Seq<u8>) -> Result<
        ((UrlBytesView, UrlBytesView), Seq<u8>),
        CodecError,
    > {
        match v {
            DapVersion::Draft02 => match dec_prefixed_u16(s) {
                Err(e) => Err(e),
                Ok((body, rest)) => match dec_items::<UrlBytesView>(body) {
                    Err(e) => Err(e),
                    Ok(urls) => if urls.len() == 2 {
                        Ok(((urls[0], urls[1]), rest))
                    } else {
                        Err(CodecError::UnexpectedValue)
                    },
                },
            },
            DapVersion::Draft07 => match UrlBytesView::dec(s) {
                Err(e) => Err(e),
                Ok((leader, s)) => match UrlBytesView::dec(s) {
                    Err(e) => Err(e),
                    Ok((helper, s)) => Ok(((leader, helper), s)),
                },
            },
        }
    }

    pub open spec fn dec(v: DapVersion, s: Seq<u8>) -> Result<(TaskConfigView, Seq<u8>), CodecError> {
        match dec_prefixed_u8(s) {
            Err(e) => Err(e),
            Ok((task_info, s)) => match Self::dec_urls(v, s) {
                Err(e) => Err(e),
                Ok(((leader_url, helper_url), s)) => match QueryConfigView::dec(v, s) {
                    Err(e) => Err(e),
                    Ok((query_config, s)) => match dec_u64(s) {
                        Err(e) => Err(e),
                        Ok((task_expiration, s)) => match VdafConfigView::dec(v, s) {
                            Err(e) => Err(e),
                            Ok((vdaf_config, s)) => Ok(
                                (
                                    TaskConfigView {
                                        task_info,
                                        leader_url,
                                        helper_url,
                                        query_config,
                                        task_expiration,
                                        vdaf_config,
                                    },
                                    s,
                                ),
                            ),
                        },
                    },
                },
            },
        }
    }

    /// Reading the endpoints inverts writing them.
    pub proof fn lemma_urls_round_trip(t: TaskConfigView, v: DapVersion, rest: Seq<u8>)
        requires
            t.wf(v),
        ensures
            Self::dec_urls(v, t.urls_encoding(v) + rest) == Ok::<_, CodecError>(
                ((t.leader_url, t.helper_url), rest),
            ),
    {
        let urls = seq![t.leader_url, t.helper_url];
        match v {
            DapVersion::Draft02 => {
                assert(items_wf(urls)) by {
                    assert(urls[0] == t.leader_url);
                    assert(urls[1] == t.helper_url);
                }
                lemma_prefixed_u16_round_trip(items_encoding(urls), rest);
                lemma_items_round_trip::<UrlBytesView>(urls);
            },
            DapVersion::Draft07 => {
                lemma_concat3(t.leader_url.encoding(), t.helper_url.encoding(), rest);
                UrlBytesView::lemma_round_trip(t.leader_url, t.helper_url.encoding() + rest);
                UrlBytesView::lemma_round_trip(t.helper_url, rest);
            },
        }
    }

    /// Whatever endpoints decode were canonically encoded.
    pub proof fn lemma_urls_canonical(v: DapVersion, s: Seq<u8>)
        ensures
            Self::dec_urls(v, s) matches Ok(((leader, helper), rest)) ==> leader.wf() && helper.wf()
                && (v is Draft02 ==> fits_u16(items_encoding(seq![leader, helper]))) && (match v {
                DapVersion::Draft02 => enc_prefixed_u16(items_encoding(seq![leader, helper])),
                DapVersion::Draft07 => leader.encoding() + helper.encoding(),
            }) + rest == s,
    {
        match v {
            DapVersion::Draft02 => {
                lemma_prefixed_u16_canonical(s);
                if dec_prefixed_u16(s) is Ok {
                    let (body, rest) = dec_prefixed_u16(s)->Ok_0;
                    lemma_items_canonical::<UrlBytesView>(body);
                    if dec_items::<UrlBytesView>(body) is Ok {
                        let urls = dec_items::<UrlBytesView>(body)->Ok_0;
                        if urls.len() == 2 {
                            assert(seq![urls[0], urls[1]] =~= urls);
                            assert(urls[0].wf() && urls[1].wf());
                        }
                    }
                }
            },
            DapVersion::Draft07 => {
                if UrlBytesView::dec(s) is Ok {
                    UrlBytesView::lemma_canonical(s);
                    let (leader, s1) = UrlBytesView::dec(s)->Ok_0;
                    UrlBytesView::lemma_canonical(s1);
                    if UrlBytesView::dec(s1) is Ok {
                        let (helper, rest) = UrlBytesView::dec(s1)->Ok_0;
                        lemma_concat3(leader.encoding(), helper.encoding(), rest);
                    }
                }
            },
        }
    }

    /// Decoding inverts encoding on every well-formed task configuration.
    #[verifier::spinoff_prover]
    #[verifier::rlimit(100)]
    pub proof fn lemma_round_trip(t: TaskConfigView, v: DapVersion, rest: Seq<u8>)
        requires
            t.wf(v),
        ensures
            Self::dec(v, t.encoding(v) + rest) == Ok::<_, CodecError>((t, rest)),
            t.encoding(v).len() >= 1,
    {
        let s4 = t.vdaf_config.encoding(v) + rest;
        let s3 = enc_u64(t.task_expiration) + s4;
        let s2 = t.query_config.encoding(v) + s3;
        let s1 = t.urls_encoding(v) + s2;
        lemma_concat6(
            enc_prefixed_u8(t.task_info),
            t.urls_encoding(v),
            t.query_config.encoding(v),
            enc_u64(t.task_expiration),
            t.vdaf_config.encoding(v),
            rest,
        );
        lemma_prefixed_u8_round_trip(t.task_info, s1);
        Self::lemma_urls_round_trip(t, v, s2);
        QueryConfigView::lemma_round_trip(t.query_config, v, s3);
        lemma_u64_round_trip(t.task_expiration, s4);
        VdafConfigView::lemma_round_trip(t.vdaf_config, v, rest);
    }

    /// Whatever decodes was the canonical encoding of what came out.
    #[verifier::spinoff_prover]
    #[verifier::rlimit(100)]
    pub proof fn lemma_canonical(v: DapVersion, s: Seq<u8>)
        ensures
            Self::dec(v, s) matches Ok((t, rest)) ==> t.wf(v) && t.encoding(v) + rest == s,
    {
        if Self::dec(v, s) is Ok {
            lemma_prefixed_u8_canonical(s);
            let (task_info, s1) = dec_prefixed_u8(s)->Ok_0;
            Self::lemma_urls_canonical(v, s1);
            let ((leader_url, helper_url), s2) = Self::dec_urls(v, s1)->Ok_0;
            QueryConfigView::lemma_canonical(v, s2);
            let (query_config, s3) = QueryConfigView::dec(v, s2)->Ok_0;
            lemma_u64_canonical(s3);
            let (task_expiration, s4) = dec_u64(s3)->Ok_0;
            VdafConfigView::lemma_canonical(v, s4);
            let (vdaf_config, rest) = VdafConfigView::dec(v, s4)->Ok_0;
            let t = TaskConfigView {
                task_info,
                leader_url,
                helper_url,
                query_config,
                task_expiration,
                vdaf_config,
            };
            lemma_concat6(
                enc_prefixed_u8(task_info),
                t.urls_encoding(v),
                query_config.encoding(v),
                enc_u64(task_expiration),
                vdaf_config.encoding(v),
                rest,
            );
        }
    }
}

impl TaskConfigView {
    /// What the endpoint decoder reads does not change when more input
    /// follows.
    pub proof fn lemma_urls_prefix(v: DapVersion, s: Seq<u8>, extra: Seq<u8>)
        ensures
            Self::dec_urls(v, s) matches Ok((urls, rest)) ==> Self::dec_urls(v, s + extra) == Ok::<
                _,
                CodecError,
            >((urls, rest + extra)),
    {
        match v {
            DapVersion::Draft02 => {
                lemma_prefixed_u16_prefix(s, extra);
            },
            DapVersion::Draft07 => {
                UrlBytesView::lemma_prefix(s, extra);
                if UrlBytesView::dec(s) is Ok {
                    let (leader, s1) = UrlBytesView::dec(s)->Ok_0;
                    UrlBytesView::lemma_prefix(s1, extra);
                }
            },
        }
    }

    /// What the decoder reads does not change when more input follows.
    #[verifier::spinoff_prover]
    #[verifier::rlimit(100)]
    pub proof fn lemma_prefix(v: DapVersion, s: Seq<u8>, extra: Seq<u8>)
        ensures
            Self::dec(v, s) matches Ok((t, rest)) ==> Self::dec(v, s + extra) == Ok::<
                _,
                CodecError,
            >((t, rest + extra)),
    {
        lemma_prefixed_u8_prefix(s, extra);
        if dec_prefixed_u8(s) is Ok {
            let (task_info, s1) = dec_prefixed_u8(s)->Ok_0;
            Self::lemma_urls_prefix(v, s1, extra);
            if Self::dec_urls(v, s1) is Ok {
                let (urls, s2) = Self::dec_urls(v, s1)->Ok_0;
                QueryConfigView::lemma_prefix(v, s2, extra);
                if QueryConfigView::dec(v, s2) is Ok {
                    let (query_config, s3) = QueryConfigView::dec(v, s2)->Ok_0;
                    lemma_u64_prefix(s3, extra);
                    if dec_u64(s3) is Ok {
                        let (task_expiration, s4) = dec_u64(s3)->Ok_0;
                        VdafConfigView::lemma_prefix(v, s4, extra);
                    }
                }
            }
        }
    }

    /// A buffer truncated by at least one byte anywhere inside a well-formed
    /// task configuration fails to decode in full.
    #[verifier::spinoff_prover]
    #[verifier::rlimit(100)]
    pub proof fn lemma_truncation(t: TaskConfigView, v: DapVersion, k: int)
        requires
            t.wf(v),
            0 <= k < t.encoding(v).len(),
        ensures
            dec_full(Self::dec(v, t.encoding(v).take(k))) is Err,
    {
        let enc = t.encoding(v);
        let p = enc.take(k);
        if Self::dec(v, p) is Ok {
            let (u, rest) = Self::dec(v, p)->Ok_0;
            if rest.len() == 0 {
                Self::lemma_prefix(v, p, enc.skip(k));
                crate::codec::lemma_take_skip(enc, k);
                Self::lemma_round_trip(t, v, Seq::empty());
                crate::codec::lemma_add_empty_right(enc);
                crate::codec::lemma_add_empty_left(enc.skip(k));
                assert(false);
            }
        }
    }
}

impl TaskConfig {
    pub fn encode_with_param(&self, version: DapVersion, bytes: &mut Vec<u8>) -> (r: Result<
        (),
        CodecError,
    >)
        ensures
            r is Ok <==> self@.encodable(version),
            r is Ok ==> final(bytes)@ == old(bytes)@ + self@.encoding(version),
    {
        encode_u8_bytes(bytes, self.task_info.as_slice())?;
        match version {
            DapVersion::Draft02 => {
                let mut tmp: Vec<u8> = Vec::new();
                self.leader_url.encode(&mut tmp)?;
                self.helper_url.encode(&mut tmp)?;
                proof {
                    let urls = seq![self.leader_url@, self.helper_url@];
                    assert(urls[0] == self.leader_url@);
                    assert(urls.skip(1) =~= seq![self.helper_url@]);
                    assert(seq![self.helper_url@][0] == self.helper_url@);
                    assert(seq![self.helper_url@].skip(1) =~= Seq::<UrlBytesView>::empty());
                    assert(items_encoding(Seq::<UrlBytesView>::empty()) == Seq::<u8>::empty());
                    assert(items_encoding(seq![self.helper_url@]) == self.helper_url@.encoding()
                        + Seq::<u8>::empty());
                    assert(items_encoding(urls) == urls[0].encoding() + items_encoding(
                        urls.skip(1),
                    ));
                    assert(self.helper_url@.encoding() + Seq::<u8>::empty()
                        =~= self.helper_url@.encoding());
                    assert(tmp@ =~= items_encoding(urls));
                }
                encode_u16_bytes(bytes, tmp.as_slice())?;
            },
            DapVersion::Draft07 => {
                self.leader_url.encode(bytes)?;
                self.helper_url.encode(bytes)?;
            },
        }
        self.query_config.encode_with_param(version, bytes)?;
        encode_u64(bytes, self.task_expiration);
        self.vdaf_config.encode_with_param(version, bytes)?;
        proof {
            assert(bytes@ =~= old(bytes)@ + self@.encoding(version));
        }
        Ok(())
    }

    pub fn decode_with_param(version: DapVersion, bytes: &[u8], pos: &mut usize) -> (r: Result<
        TaskConfig,
        CodecError,
    >)
        requires
            *old(pos) <= bytes@.len(),
        ensures
            *old(pos) <= *final(pos) <= bytes@.len(),
            match r {
                Ok(t) => TaskConfigView::dec(version, bytes@.skip(*old(pos) as int)) == Ok::<
                    _,
                    CodecError,
                >((t@, bytes@.skip(*final(pos) as int))),
                Err(e) => TaskConfigView::dec(version, bytes@.skip(*old(pos) as int)) == Err::<
                    (TaskConfigView, Seq<u8>),
                    CodecError,
                >(e),
            },
    {
        let task_info = decode_u8_bytes(bytes, pos)?;
        let (leader_url, helper_url) = match version {
            DapVersion::Draft02 => {
                let body = decode_u16_bytes(bytes, pos)?;
                let mut urls = match decode_url_items(body.as_slice()) {
                    Ok(urls) => urls,
                    Err(e) => {
                        return Err(e);
                    },
                };
                if urls.len() != 2 {
                    return Err(CodecError::UnexpectedValue);
                }
                let helper = match urls.pop() {
                    Some(u) => u,
                    None => {
                        return Err(CodecError::UnexpectedValue);
                    },
                };
                let leader = match urls.pop() {
                    Some(u) => u,
                    None => {
                        return Err(CodecError::UnexpectedValue);
                    },
                };
                (leader, helper)
            },
            DapVersion::Draft07 => {
                let leader = UrlBytes::decode(bytes, pos)?;
                let helper = UrlBytes::decode(bytes, pos)?;
                (leader, helper)
            },
        };
        let query_config = QueryConfig::decode_with_param(version, bytes, pos)?;
        let task_expiration = decode_u64(bytes, pos)?;
        let vdaf_config = VdafConfig::decode_with_param(version, bytes, pos)?;
        Ok(
            TaskConfig {
                task_info,
                leader_url,
                helper_url,
                query_config,
                task_expiration,
                vdaf_config,
            },
        )
    }

    /// Encode to a fresh buffer.
    pub fn get_encoded_with_param(&self, version: DapVersion) -> (r: Result<Vec<u8>, CodecError>)
        ensures
            r is Ok <==> self@.encodable(version),
            r matches Ok(v) ==> v@ == self@.encoding(version),
    {
        let mut bytes: Vec<u8> = Vec::new();
        self.encode_with_param(version, &mut bytes)?;
        Ok(bytes)
    }

    /// Decode a buffer in full; leftover bytes are refused.
    #[verifier::rlimit(100)]
    pub fn get_decoded_with_param(version: DapVersion, data: &[u8]) -> (r: Result<
        TaskConfig,
        CodecError,
    >)
        ensures
            match r {
                Ok(t) => dec_full(TaskConfigView::dec(version, data@)) == Ok::<
                    TaskConfigView,
                    CodecError,
                >(t@),
                Err(e) => dec_full(TaskConfigView::dec(version, data@)) == Err::<
                    TaskConfigView,
                    CodecError,
                >(e),
            },
    {
        let mut pos: usize = 0;
        proof {
            assert(data@.skip(0) =~= data@);
        }
        let t = Self::decode_with_param(version, data, &mut pos)?;
        if pos != data.len() {
            return Err(CodecError::UnexpectedValue);
        }
        proof {
            assert(data@.skip(pos as int) =~= Seq::<u8>::empty());
        }
        Ok(t)
    }
}

} // verus!
