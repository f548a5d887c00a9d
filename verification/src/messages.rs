//! Messages in the DAP protocol.
//!
//! Every message has a mathematical view, a canonical encoding of that view,
//! and a specification-level decoder that the executable encoder and decoder
//! are proved to match exactly.

use vstd::prelude::*;
use crate::codec::{
    CodecError, WireValue, dec_fixed, dec_full, dec_items, dec_prefixed_u16, dec_prefixed_u32,
    dec_u16, dec_u64, decode_raw, decode_u16, decode_u16_bytes, decode_u32_bytes, decode_u64,
    enc_prefixed_u16, enc_prefixed_u32, enc_u16, enc_u64, encode_raw, encode_u16, encode_u16_bytes,
    encode_u32_bytes, encode_u64, fits_u16, fits_u32, items_encodable, items_encoding, items_wf,
    lemma_concat3, lemma_concat4, lemma_concat5, lemma_fixed_canonical, lemma_fixed_round_trip,
    lemma_items_canonical, lemma_items_encoding_push, lemma_items_round_trip,
    lemma_fixed_prefix, lemma_prefixed_u16_canonical, lemma_prefixed_u16_prefix,
    lemma_prefixed_u16_round_trip, lemma_prefixed_u32_canonical, lemma_prefixed_u32_prefix,
    lemma_prefixed_u32_round_trip, lemma_u16_canonical, lemma_u16_prefix, lemma_u16_round_trip,
    lemma_u64_canonical, lemma_u64_prefix, lemma_u64_round_trip,
};
use crate::hpke::{
    HpkeCiphertext, HpkeCiphertextView, ciphertext_list_u32_encodable, dec_ciphertext_list_u32,
    decode_ciphertext_list_u32, enc_ciphertext_list_u32, encode_ciphertext_list_u32,
    lemma_ciphertext_list_u32_canonical, lemma_ciphertext_list_u32_prefix,
    lemma_ciphertext_list_u32_round_trip,
};

verus! {

/// A duration in seconds.
pub type Duration = u64;

/// Seconds since the Unix epoch.
pub type Time = u64;

pub const QUERY_TYPE_TIME_INTERVAL: u16 = 0x0001;

pub const QUERY_TYPE_FIXED_SIZE: u16 = 0x0002;

/// What URL-safe unpadded base64 encoding returns: a function of the bytes
/// alone.
pub uninterp spec fn base64url_of(b: Seq<u8>) -> Seq<char>;

/// Relies on base64::encode_config with URL_SAFE_NO_PAD: the URL-safe base64
/// text of the bytes, without padding, a function of the bytes alone.
#[verifier::external_body]
fn base64url_encode(b: &[u8]) -> (r: String)
    ensures
        r@ == base64url_of(b@),
{
    base64::encode_config(b, base64::URL_SAFE_NO_PAD)
}

/// What URL-safe unpadded base64 decoding returns: whether the text is valid,
/// and the bytes it denotes, are functions of the text alone.
pub uninterp spec fn base64url_decoded(s: Seq<char>) -> Option<Seq<u8>>;

/// Relies on base64::decode_config with URL_SAFE_NO_PAD: decoding depends on
/// the text alone; invalid text is reported, not guessed at.
#[verifier::external_body]
pub fn decode_base64url_vec(input: &str) -> (r: Option<Vec<u8>>)
    ensures
        match r {
            Some(v) => base64url_decoded(input@) == Some(v@),
            None => base64url_decoded(input@) is None,
        },
{
    base64::decode_config(input, base64::URL_SAFE_NO_PAD).ok()
}

/// The lowercase hexadecimal digit of a value below sixteen.
pub open spec fn hex_digit(n: u8) -> char {
    seq!['0', '1', '2', '3', '4', '5', '6', '7', '8', '9', 'a', 'b', 'c', 'd', 'e', 'f'][n as int]
}

/// The lowercase hexadecimal text of a byte string: two digits per byte, in
/// order.
pub open spec fn hex_of(b: Seq<u8>) -> Seq<char>
    decreases b.len(),
{
    if b.len() == 0 {
        Seq::empty()
    } else {
        seq![hex_digit(b[0] / 16), hex_digit(b[0] % 16)] + hex_of(b.skip(1))
    }
}

/// Relies on hex::encode: two lowercase hexadecimal digits for each byte, in
/// order.
#[verifier::external_body]
fn hex_encode(b: &[u8]) -> (r: String)
    ensures
        r@ == hex_of(b@),
{
    hex::encode(b)
}

/// A 32-byte identifier is serialized raw, with no length prefix.
pub open spec fn id_wf(v: Seq<u8>) -> bool {
    v.len() == 32
}

/// The identifier for a DAP task. Aggregation-job and batch identifiers share
/// the shape: a fixed 32-byte opaque value.
#[derive(Clone, Debug, Hash, PartialEq, Eq)]
pub struct Id(pub Vec<u8>);

impl View for Id {
    type V = Seq<u8>;

    open spec fn view(&self) -> Seq<u8> {
        self.0@
    }
}

impl DeepView for Id {
    type V = Seq<u8>;

    open spec fn deep_view(&self) -> Seq<u8> {
        self.0@
    }
}

impl Id {
    /// The URL-safe, unpadded base64 encoding of the identifier.
    pub fn to_base64url(&self) -> (r: String)
        ensures
            r@ == base64url_of(self@),
    {
        base64url_encode(self.0.as_slice())
    }

    /// The identifier encoded as a lowercase hexadecimal string.
    pub fn to_hex(&self) -> (r: String)
        ensures
            r@ == hex_of(self@),
    {
        hex_encode(self.0.as_slice())
    }

    /// The raw bytes of the identifier.
    pub fn as_ref(&self) -> (r: &[u8])
        ensures
            r@ == self@,
    {
        self.0.as_slice()
    }

    pub fn encode(&self, bytes: &mut Vec<u8>) -> (r: Result<(), CodecError>)
        ensures
            r is Ok,
            final(bytes)@ == old(bytes)@ + self@,
    {
        encode_raw(bytes, self.0.as_slice());
        Ok(())
    }

    pub fn decode(bytes: &[u8], pos: &mut usize) -> (r: Result<Id, CodecError>)
        requires
            *old(pos) <= bytes@.len(),
        ensures
            *old(pos) <= *final(pos) <= bytes@.len(),
            match r {
                Ok(t) => dec_fixed(bytes@.skip(*old(pos) as int), 32) == Ok::<_, CodecError>(
                    (t@, bytes@.skip(*final(pos) as int)),
                ) && id_wf(t@),
                Err(e) => dec_fixed(bytes@.skip(*old(pos) as int), 32) == Err::<
                    (Seq<u8>, Seq<u8>),
                    CodecError,
                >(e),
            },
    {
        let data = decode_raw(bytes, pos, 32)?;
        Ok(Id(data))
    }
}

/// The nonce sent in a report: a fixed 16-byte opaque value, unique per report
/// within a task.
pub open spec fn nonce_wf(v: Seq<u8>) -> bool {
    v.len() == 16
}

/// The nonce sent in a [`Report`].
#[derive(Clone, Debug, Hash, PartialEq, Eq)]
pub struct Nonce(pub Vec<u8>);

impl View for Nonce {
    type V = Seq<u8>;

    open spec fn view(&self) -> Seq<u8> {
        self.0@
    }
}

impl DeepView for Nonce {
    type V = Seq<u8>;

    open spec fn deep_view(&self) -> Seq<u8> {
        self.0@
    }
}

impl Nonce {
    /// The raw bytes of the nonce.
    pub fn as_ref(&self) -> (r: &[u8])
        ensures
            r@ == self@,
    {
        self.0.as_slice()
    }

    pub fn encode(&self, bytes: &mut Vec<u8>) -> (r: Result<(), CodecError>)
        ensures
            r is Ok,
            final(bytes)@ == old(bytes)@ + self@,
    {
        encode_raw(bytes, self.0.as_slice());
        Ok(())
    }

    pub fn decode(bytes: &[u8], pos: &mut usize) -> (r: Result<Nonce, CodecError>)
        requires
            *old(pos) <= bytes@.len(),
        ensures
            *old(pos) <= *final(pos) <= bytes@.len(),
            match r {
                Ok(t) => dec_fixed(bytes@.skip(*old(pos) as int), 16) == Ok::<_, CodecError>(
                    (t@, bytes@.skip(*final(pos) as int)),
                ) && nonce_wf(t@),
                Err(e) => dec_fixed(bytes@.skip(*old(pos) as int), 16) == Err::<
                    (Seq<u8>, Seq<u8>),
                    CodecError,
                >(e),
            },
    {
        let data = decode_raw(bytes, pos, 16)?;
        Ok(Nonce(data))
    }
}

/// Report extensions. Unknown types are preserved verbatim.
#[derive(Clone, Debug, PartialEq, Eq)]
pub enum Extension {
    Unhandled { typ: u16, payload: Vec<u8> },
}

/// The mathematical value of an [`Extension`].
pub enum ExtensionView {
    Unhandled { typ: u16, payload: Seq<u8> },
}

impl View for Extension {
    type V = ExtensionView;

    open spec fn view(&self) -> ExtensionView {
        match self {
            Extension::Unhandled { typ, payload } => ExtensionView::Unhandled {
                typ: *typ,
                payload: payload@,
            },
        }
    }
}

impl DeepView for Extension {
    type V = ExtensionView;

    open spec fn deep_view(&self) -> ExtensionView {
        self.view()
    }
}

impl WireValue for ExtensionView {
    open spec fn encoding(self) -> Seq<u8> {
        match self {
            ExtensionView::Unhandled { typ, payload } => enc_u16(typ) + enc_prefixed_u16(payload),
        }
    }

    open spec fn encodable(self) -> bool {
        match self {
            ExtensionView::Unhandled { typ, payload } => fits_u16(payload),
        }
    }

    open spec fn wf(self) -> bool {
        self.encodable()
    }

    open spec fn dec(s: Seq<u8>) -> Result<(ExtensionView, Seq<u8>), CodecError> {
        match dec_u16(s) {
            Err(e) => Err(e),
            Ok((typ, s)) => match dec_prefixed_u16(s) {
                Err(e) => Err(e),
                Ok((payload, s)) => Ok((ExtensionView::Unhandled { typ, payload }, s)),
            },
        }
    }

    proof fn lemma_round_trip(t: ExtensionView, rest: Seq<u8>) {
        match t {
            ExtensionView::Unhandled { typ, payload } => {
                lemma_concat3(enc_u16(typ), enc_prefixed_u16(payload), rest);
                lemma_u16_round_trip(typ, enc_prefixed_u16(payload) + rest);
                lemma_prefixed_u16_round_trip(payload, rest);
            },
        }
    }

    proof fn lemma_canonical(s: Seq<u8>) {
        if Self::dec(s) is Ok {
            lemma_u16_canonical(s);
            let (typ, s1) = dec_u16(s)->Ok_0;
            lemma_prefixed_u16_canonical(s1);
            let (payload, rest) = dec_prefixed_u16(s1)->Ok_0;
            lemma_concat3(enc_u16(typ), enc_prefixed_u16(payload), rest);
        }
    }
}

impl Extension {
    pub fn encode(&self, bytes: &mut Vec<u8>) -> (r: Result<(), CodecError>)
        ensures
            r is Ok <==> self@.encodable(),
            r is Ok ==> final(bytes)@ == old(bytes)@ + self@.encoding(),
    {
        match self {
            Extension::Unhandled { typ, payload } => {
                encode_u16(bytes, *typ);
                encode_u16_bytes(bytes, payload.as_slice())?;
                proof {
                    assert(bytes@ =~= old(bytes)@ + self@.encoding());
                }
                Ok(())
            },
        }
    }

    pub fn decode(bytes: &[u8], pos: &mut usize) -> (r: Result<Extension, CodecError>)
        requires
            *old(pos) <= bytes@.len(),
        ensures
            *old(pos) <= *final(pos) <= bytes@.len(),
            match r {
                Ok(t) => ExtensionView::dec(bytes@.skip(*old(pos) as int)) == Ok::<_, CodecError>(
                    (t@, bytes@.skip(*final(pos) as int)),
                ),
                Err(e) => ExtensionView::dec(bytes@.skip(*old(pos) as int)) == Err::<
                    (ExtensionView, Seq<u8>),
                    CodecError,
                >(e),
            },
    {
        let typ = decode_u16(bytes, pos)?;
        let payload = decode_u16_bytes(bytes, pos)?;
        Ok(Extension::Unhandled { typ, payload })
    }
}

/// A list of extensions, its byte length prefixed as a 16-bit integer.
pub open spec fn enc_extension_list_u16(items: Seq<ExtensionView>) -> Seq<u8> {
    enc_prefixed_u16(items_encoding(items))
}

/// Whether an extension list encodes: every item does, and the total fits.
pub open spec fn extension_list_u16_encodable(items: Seq<ExtensionView>) -> bool {
    items_encodable(items) && fits_u16(items_encoding(items))
}

/// Read a list of extensions prefixed by its byte length as a 16-bit integer.
pub open spec fn dec_extension_list_u16(s: Seq<u8>) -> Result<
    (Seq<ExtensionView>, Seq<u8>),
    CodecError,
> {
    match dec_prefixed_u16(s) {
        Err(e) => Err(e),
        Ok((body, rest)) => match dec_items::<ExtensionView>(body) {
            Err(e) => Err(e),
            Ok(ts) => Ok((ts, rest)),
        },
    }
}

pub proof fn lemma_extension_list_u16_round_trip(items: Seq<ExtensionView>, rest: Seq<u8>)
    requires
        items_wf(items),
        fits_u16(items_encoding(items)),
    ensures
        dec_extension_list_u16(enc_extension_list_u16(items) + rest) == Ok::<_, CodecError>(
            (items, rest),
        ),
        enc_extension_list_u16(items).len() >= 2,
{
    lemma_prefixed_u16_round_trip(items_encoding(items), rest);
    lemma_items_round_trip::<ExtensionView>(items);
}

pub proof fn lemma_extension_list_u16_canonical(s: Seq<u8>)
    ensures
        dec_extension_list_u16(s) matches Ok((ts, rest)) ==> items_wf(ts) && fits_u16(
            items_encoding(ts),
        ) && enc_extension_list_u16(ts) + rest == s && rest.len() <= s.len() - 2,
{
    lemma_prefixed_u16_canonical(s);
    if dec_prefixed_u16(s) is Ok {
        let (body, rest) = dec_prefixed_u16(s)->Ok_0;
        lemma_items_canonical::<ExtensionView>(body);
    }
}

/// What the list decoder reads does not change when more input follows: the
/// byte-length prefix pins the body down.
pub proof fn lemma_extension_list_u16_prefix(s: Seq<u8>, extra: Seq<u8>)
    ensures
        dec_extension_list_u16(s) matches Ok((ts, rest)) ==> dec_extension_list_u16(s + extra)
            == Ok::<_, CodecError>((ts, rest + extra)),
{
    lemma_prefixed_u16_prefix(s, extra);
}

/// Encode each extension of a list in order, with no surrounding prefix.
fn encode_extension_items(out: &mut Vec<u8>, items: &Vec<Extension>) -> (r: Result<(), CodecError>)
    ensures
        r is Ok <==> items_encodable(items.deep_view()),
        r is Ok ==> final(out)@ == old(out)@ + items_encoding(items.deep_view()),
{
    let ghost dv = items.deep_view();
    proof {
        assert(dv.take(0) =~= Seq::<ExtensionView>::empty());
        assert(out@ =~= old(out)@ + items_encoding(dv.take(0)));
    }
    let mut i: usize = 0;
    while i < items.len()
        invariant
            i <= items@.len(),
            dv == items.deep_view(),
            dv.len() == items@.len(),
            forall|j: int| 0 <= j < i ==> (#[trigger] dv[j]).encodable(),
            out@ == old(out)@ + items_encoding(dv.take(i as int)),
        decreases items@.len() - i,
    {
        proof {
            assert(dv[i as int] == items@[i as int]@);
        }
        match items[i].encode(out) {
            Ok(()) => {},
            Err(e) => {
                proof {
                    assert(!(#[trigger] dv[i as int]).encodable());
                }
                return Err(e);
            },
        }
        proof {
            lemma_items_encoding_push(dv.take(i as int), dv[i as int]);
            assert(dv.take(i as int).push(dv[i as int]) =~= dv.take(i as int + 1));
            assert(out@ =~= old(out)@ + items_encoding(dv.take(i as int + 1)));
        }
        i = i + 1;
    }
    proof {
        assert(dv.take(dv.len() as int) =~= dv);
    }
    Ok(())
}

/// Decode extensions until the input is exhausted.
fn decode_extension_items(body: &[u8]) -> (r: Result<Vec<Extension>, CodecError>)
    ensures
        match r {
            Ok(items) => dec_items::<ExtensionView>(body@) == Ok::<_, CodecError>(
                items.deep_view(),
            ),
            Err(e) => dec_items::<ExtensionView>(body@) == Err::<Seq<ExtensionView>, CodecError>(
                e,
            ),
        },
{
    let mut items: Vec<Extension> = Vec::new();
    let mut bpos: usize = 0;
    proof {
        assert(body@.skip(0) =~= body@);
        assert(items.deep_view() =~= Seq::<ExtensionView>::empty());
        assert(items.deep_view() + Seq::<ExtensionView>::empty() =~= items.deep_view());
    }
    while bpos < body.len()
        invariant
            bpos <= body@.len(),
            ({
                let d = dec_items::<ExtensionView>(body@);
                match dec_items::<ExtensionView>(body@.skip(bpos as int)) {
                    Ok(ts) => d == Ok::<_, CodecError>(items.deep_view() + ts),
                    Err(e) => d == Err::<Seq<ExtensionView>, CodecError>(e),
                }
            }),
        decreases body@.len() - bpos,
    {
        let prev: usize = bpos;
        let ghost items0 = items.deep_view();
        let item = match Extension::decode(body, &mut bpos) {
            Ok(t) => t,
            Err(e) => {
                return Err(e);
            },
        };
        if bpos <= prev {
            proof {
                assert(body@.skip(bpos as int).len() >= body@.skip(prev as int).len());
            }
            return Err(CodecError::UnexpectedValue);
        }
        items.push(item);
        proof {
            assert(body@.skip(bpos as int).len() < body@.skip(prev as int).len());
            assert(items.deep_view() =~= items0.push(item@));
            if dec_items::<ExtensionView>(body@.skip(bpos as int)) is Ok {
                let ts = dec_items::<ExtensionView>(body@.skip(bpos as int))->Ok_0;
                assert(dec_items::<ExtensionView>(body@.skip(prev as int)) == Ok::<_, CodecError>(
                    seq![item@] + ts,
                ));
                assert(items0 + (seq![item@] + ts) =~= items.deep_view() + ts);
            }
        }
    }
    proof {
        assert(body@.skip(bpos as int) =~= Seq::<u8>::empty());
        assert(items.deep_view() + Seq::<ExtensionView>::empty() =~= items.deep_view());
    }
    Ok(items)
}

/// Append a list of extensions, its byte length prefixed as a 16-bit integer.
pub fn encode_extension_list_u16(bytes: &mut Vec<u8>, items: &Vec<Extension>) -> (r: Result<
    (),
    CodecError,
>)
    ensures
        r is Ok <==> extension_list_u16_encodable(items.deep_view()),
        r is Ok ==> final(bytes)@ == old(bytes)@ + enc_extension_list_u16(items.deep_view()),
{
    let mut tmp: Vec<u8> = Vec::new();
    encode_extension_items(&mut tmp, items)?;
    encode_u16_bytes(bytes, tmp.as_slice())
}

/// Read a list of extensions prefixed by its byte length as a 16-bit integer.
pub fn decode_extension_list_u16(bytes: &[u8], pos: &mut usize) -> (r: Result<
    Vec<Extension>,
    CodecError,
>)
    requires
        *old(pos) <= bytes@.len(),
    ensures
        *old(pos) <= *final(pos) <= bytes@.len(),
        match r {
            Ok(items) => dec_extension_list_u16(bytes@.skip(*old(pos) as int)) == Ok::<
                _,
                CodecError,
            >((items.deep_view(), bytes@.skip(*final(pos) as int))),
            Err(e) => dec_extension_list_u16(bytes@.skip(*old(pos) as int)) == Err::<
                (Seq<ExtensionView>, Seq<u8>),
                CodecError,
            >(e),
        },
{
    let body = decode_u16_bytes(bytes, pos)?;
    match decode_extension_items(body.as_slice()) {
        Ok(items) => Ok(items),
        Err(e) => Err(e),
    }
}

/// Report metadata: the time, the nonce, and the extensions.
#[derive(Clone, Debug, PartialEq, Eq)]
pub struct ReportMetadata {
    pub time: Time,
    pub nonce: Nonce,
    pub extensions: Vec<Extension>,
}

/// The mathematical value of a [`ReportMetadata`].
pub struct ReportMetadataView {
    pub time: Time,
    pub nonce: Seq<u8>,
    pub extensions: Seq<ExtensionView>,
}

impl View for ReportMetadata {
    type V = ReportMetadataView;

    open spec fn view(&self) -> ReportMetadataView {
        ReportMetadataView {
            time: self.time,
            nonce: self.nonce@,
            extensions: self.extensions.deep_view(),
        }
    }
}

impl DeepView for ReportMetadata {
    type V = ReportMetadataView;

    open spec fn deep_view(&self) -> ReportMetadataView {
        self.view()
    }
}

impl ReportMetadataView {
    pub open spec fn encoding(self) -> Seq<u8> {
        enc_u64(self.time) + self.nonce + enc_extension_list_u16(self.extensions)
    }

    pub open spec fn encodable(self) -> bool {
        extension_list_u16_encodable(self.extensions)
    }

    pub open spec fn wf(self) -> bool {
        self.encodable() && nonce_wf(self.nonce) && items_wf(self.extensions)
    }

    pub open spec fn dec(s: Seq<u8>) -> Result<(ReportMetadataView, Seq<u8>), CodecError> {
        match dec_u64(s) {
            Err(e) => Err(e),
            Ok((time, s)) => match dec_fixed(s, 16) {
                Err(e) => Err(e),
                Ok((nonce, s)) => match dec_extension_list_u16(s) {
                    Err(e) => Err(e),
                    Ok((extensions, s)) => Ok((ReportMetadataView { time, nonce, extensions }, s)),
                },
            },
        }
    }

    /// Decoding inverts encoding on every well-formed value.
    pub proof fn lemma_round_trip(t: ReportMetadataView, rest: Seq<u8>)
        requires
            t.wf(),
        ensures
            Self::dec(t.encoding() + rest) == Ok::<_, CodecError>((t, rest)),
            t.encoding().len() >= 1,
    {
        let s2 = enc_extension_list_u16(t.extensions) + rest;
        let s1 = t.nonce + s2;
        lemma_concat4(enc_u64(t.time), t.nonce, enc_extension_list_u16(t.extensions), rest);
        lemma_u64_round_trip(t.time, s1);
        lemma_fixed_round_trip(t.nonce, s2);
        lemma_extension_list_u16_round_trip(t.extensions, rest);
    }

    /// Whatever decodes was the canonical encoding of what came out.
    pub proof fn lemma_canonical(s: Seq<u8>)
        ensures
            Self::dec(s) matches Ok((t, rest)) ==> t.wf() && t.encoding() + rest == s && rest.len()
                < s.len(),
    {
        if Self::dec(s) is Ok {
            lemma_u64_canonical(s);
            let (time, s1) = dec_u64(s)->Ok_0;
            lemma_fixed_canonical(s1, 16);
            let (nonce, s2) = dec_fixed(s1, 16)->Ok_0;
            lemma_extension_list_u16_canonical(s2);
            let (extensions, rest) = dec_extension_list_u16(s2)->Ok_0;
            lemma_concat4(enc_u64(time), nonce, enc_extension_list_u16(extensions), rest);
        }
    }

    /// What the decoder reads does not change when more input follows.
    pub proof fn lemma_prefix(s: Seq<u8>, extra: Seq<u8>)
        ensures
            Self::dec(s) matches Ok((t, rest)) ==> Self::dec(s + extra) == Ok::<_, CodecError>(
                (t, rest + extra),
            ),
    {
        lemma_u64_prefix(s, extra);
        if dec_u64(s) is Ok {
            let (time, s1) = dec_u64(s)->Ok_0;
            lemma_fixed_prefix(s1, extra, 16);
            if dec_fixed(s1, 16) is Ok {
                let (nonce, s2) = dec_fixed(s1, 16)->Ok_0;
                lemma_extension_list_u16_prefix(s2, extra);
            }
        }
    }
}

impl ReportMetadata {
    pub fn encode(&self, bytes: &mut Vec<u8>) -> (r: Result<(), CodecError>)
        ensures
            r is Ok <==> self@.encodable(),
            r is Ok ==> final(bytes)@ == old(bytes)@ + self@.encoding(),
    {
        encode_u64(bytes, self.time);
        self.nonce.encode(bytes)?;
        encode_extension_list_u16(bytes, &self.extensions)?;
        proof {
            assert(bytes@ =~= old(bytes)@ + self@.encoding());
        }
        Ok(())
    }

    pub fn decode(bytes: &[u8], pos: &mut usize) -> (r: Result<ReportMetadata, CodecError>)
        requires
            *old(pos) <= bytes@.len(),
        ensures
            *old(pos) <= *final(pos) <= bytes@.len(),
            match r {
                Ok(t) => ReportMetadataView::dec(bytes@.skip(*old(pos) as int)) == Ok::<
                    _,
                    CodecError,
                >((t@, bytes@.skip(*final(pos) as int))),
                Err(e) => ReportMetadataView::dec(bytes@.skip(*old(pos) as int)) == Err::<
                    (ReportMetadataView, Seq<u8>),
                    CodecError,
                >(e),
            },
    {
        let time = decode_u64(bytes, pos)?;
        let nonce = Nonce::decode(bytes, pos)?;
        let extensions = decode_extension_list_u16(bytes, pos)?;
        Ok(ReportMetadata { time, nonce, extensions })
    }
}

/// A report generated by a client: metadata plus one encrypted input share per
/// Aggregator.
#[derive(Clone, Debug, PartialEq, Eq)]
pub struct Report {
    pub task_id: Id,
    pub metadata: ReportMetadata,
    pub public_share: Vec<u8>,
    pub encrypted_input_shares: Vec<HpkeCiphertext>,
}

/// The mathematical value of a [`Report`].
pub struct ReportView {
    pub task_id: Seq<u8>,
    pub metadata: ReportMetadataView,
    pub public_share: Seq<u8>,
    pub encrypted_input_shares: Seq<HpkeCiphertextView>,
}

impl View for Report {
    type V = ReportView;

    open spec fn view(&self) -> ReportView {
        ReportView {
            task_id: self.task_id@,
            metadata: self.metadata@,
            public_share: self.public_share@,
            encrypted_input_shares: self.encrypted_input_shares.deep_view(),
        }
    }
}

impl DeepView for Report {
    type V = ReportView;

    open spec fn deep_view(&self) -> ReportView {
        self.view()
    }
}

impl ReportView {
    pub open spec fn encoding(self) -> Seq<u8> {
        self.task_id + self.metadata.encoding() + enc_prefixed_u32(self.public_share)
            + enc_ciphertext_list_u32(self.encrypted_input_shares)
    }

    pub open spec fn encodable(self) -> bool {
        self.metadata.encodable() && fits_u32(self.public_share)
            && ciphertext_list_u32_encodable(self.encrypted_input_shares)
    }

    pub open spec fn wf(self) -> bool {
        id_wf(self.task_id) && self.metadata.wf() && fits_u32(self.public_share)
            && items_wf(self.encrypted_input_shares) && fits_u32(
            items_encoding(self.encrypted_input_shares),
        )
    }

    pub open spec fn dec(s: Seq<u8>) -> Result<(ReportView, Seq<u8>), CodecError> {
        match dec_fixed(s, 32) {
            Err(e) => Err(e),
            Ok((task_id, s)) => match ReportMetadataView::dec(s) {
                Err(e) => Err(e),
                Ok((metadata, s)) => match dec_prefixed_u32(s) {
                    Err(e) => Err(e),
                    Ok((public_share, s)) => match dec_ciphertext_list_u32(s) {
                        Err(e) => Err(e),
                        Ok((encrypted_input_shares, s)) => Ok(
                            (
                                ReportView {
                                    task_id,
                                    metadata,
                                    public_share,
                                    encrypted_input_shares,
                                },
                                s,
                            ),
                        ),
                    },
                },
            },
        }
    }

    /// Decoding inverts encoding on every well-formed report.
    #[verifier::rlimit(60)]
    pub proof fn lemma_round_trip(t: ReportView, rest: Seq<u8>)
        requires
            t.wf(),
        ensures
            Self::dec(t.encoding() + rest) == Ok::<_, CodecError>((t, rest)),
            t.encoding().len() >= 1,
    {
        let s3 = enc_ciphertext_list_u32(t.encrypted_input_shares) + rest;
        let s2 = enc_prefixed_u32(t.public_share) + s3;
        let s1 = t.metadata.encoding() + s2;
        assert(t.task_id.len() == 32);
        lemma_concat5(
            t.task_id,
            t.metadata.encoding(),
            enc_prefixed_u32(t.public_share),
            enc_ciphertext_list_u32(t.encrypted_input_shares),
            rest,
        );
        lemma_fixed_round_trip(t.task_id, s1);
        ReportMetadataView::lemma_round_trip(t.metadata, s2);
        lemma_prefixed_u32_round_trip(t.public_share, s3);
        lemma_ciphertext_list_u32_round_trip(t.encrypted_input_shares, rest);
    }

    /// Whatever decodes was the canonical encoding of what came out.
    pub proof fn lemma_canonical(s: Seq<u8>)
        ensures
            Self::dec(s) matches Ok((t, rest)) ==> t.wf() && t.encoding() + rest == s,
    {
        if Self::dec(s) is Ok {
            lemma_fixed_canonical(s, 32);
            let (task_id, s1) = dec_fixed(s, 32)->Ok_0;
            ReportMetadataView::lemma_canonical(s1);
            let (metadata, s2) = ReportMetadataView::dec(s1)->Ok_0;
            lemma_prefixed_u32_canonical(s2);
            let (public_share, s3) = dec_prefixed_u32(s2)->Ok_0;
            lemma_ciphertext_list_u32_canonical(s3);
            let (encrypted_input_shares, rest) = dec_ciphertext_list_u32(s3)->Ok_0;
            lemma_concat5(
                task_id,
                metadata.encoding(),
                enc_prefixed_u32(public_share),
                enc_ciphertext_list_u32(encrypted_input_shares),
                rest,
            );
        }
    }

    /// What the decoder reads does not change when more input follows.
    pub proof fn lemma_prefix(s: Seq<u8>, extra: Seq<u8>)
        ensures
            Self::dec(s) matches Ok((t, rest)) ==> Self::dec(s + extra) == Ok::<_, CodecError>(
                (t, rest + extra),
            ),
    {
        lemma_fixed_prefix(s, extra, 32);
        if dec_fixed(s, 32) is Ok {
            let (task_id, s1) = dec_fixed(s, 32)->Ok_0;
            ReportMetadataView::lemma_prefix(s1, extra);
            if ReportMetadataView::dec(s1) is Ok {
                let (metadata, s2) = ReportMetadataView::dec(s1)->Ok_0;
                lemma_prefixed_u32_prefix(s2, extra);
                if dec_prefixed_u32(s2) is Ok {
                    let (public_share, s3) = dec_prefixed_u32(s2)->Ok_0;
                    lemma_ciphertext_list_u32_prefix(s3, extra);
                }
            }
        }
    }

    /// A buffer truncated by at least one byte anywhere inside a well-formed
    /// report fails to decode in full, whatever field the cut lands in.
    #[verifier::rlimit(100)]
    pub proof fn lemma_truncation(t: ReportView, k: int)
        requires
            t.wf(),
            0 <= k < t.encoding().len(),
        ensures
            dec_full(Self::dec(t.encoding().take(k))) is Err,
    {
        let enc = t.encoding();
        let p = enc.take(k);
        if Self::dec(p) is Ok {
            let (u, rest) = Self::dec(p)->Ok_0;
            if rest.len() == 0 {
                Self::lemma_prefix(p, enc.skip(k));
                crate::codec::lemma_take_skip(enc, k);
                Self::lemma_round_trip(t, Seq::empty());
                crate::codec::lemma_add_empty_right(enc);
                crate::codec::lemma_add_empty_left(enc.skip(k));
                assert(false);
            }
        }
    }
}

impl Report {
    pub fn encode(&self, bytes: &mut Vec<u8>) -> (r: Result<(), CodecError>)
        ensures
            r is Ok <==> self@.encodable(),
            r is Ok ==> final(bytes)@ == old(bytes)@ + self@.encoding(),
    {
        self.task_id.encode(bytes)?;
        self.metadata.encode(bytes)?;
        encode_u32_bytes(bytes, self.public_share.as_slice())?;
        encode_ciphertext_list_u32(bytes, &self.encrypted_input_shares)?;
        proof {
            assert(bytes@ =~= old(bytes)@ + self@.encoding());
        }
        Ok(())
    }

    pub fn decode(bytes: &[u8], pos: &mut usize) -> (r: Result<Report, CodecError>)
        requires
            *old(pos) <= bytes@.len(),
        ensures
            *old(pos) <= *final(pos) <= bytes@.len(),
            match r {
                Ok(t) => ReportView::dec(bytes@.skip(*old(pos) as int)) == Ok::<_, CodecError>(
                    (t@, bytes@.skip(*final(pos) as int)),
                ),
                Err(e) => ReportView::dec(bytes@.skip(*old(pos) as int)) == Err::<
                    (ReportView, Seq<u8>),
                    CodecError,
                >(e),
            },
    {
        let task_id = Id::decode(bytes, pos)?;
        let metadata = ReportMetadata::decode(bytes, pos)?;
        let public_share = decode_u32_bytes(bytes, pos)?;
        let encrypted_input_shares = decode_ciphertext_list_u32(bytes, pos)?;
        Ok(Report { task_id, metadata, public_share, encrypted_input_shares })
    }

    /// Encode to a fresh buffer.
    pub fn get_encoded(&self) -> (r: Result<Vec<u8>, CodecError>)
        ensures
            r is Ok <==> self@.encodable(),
            r matches Ok(v) ==> v@ == self@.encoding(),
    {
        let mut bytes: Vec<u8> = Vec::new();
        self.encode(&mut bytes)?;
        Ok(bytes)
    }

    /// Decode a buffer in full; leftover bytes are refused.
    pub fn get_decoded(data: &[u8]) -> (r: Result<Report, CodecError>)
        ensures
            match r {
                Ok(t) => dec_full(ReportView::dec(data@)) == Ok::<ReportView, CodecError>(t@),
                Err(e) => dec_full(ReportView::dec(data@)) == Err::<ReportView, CodecError>(e),
            },
    {
        let mut pos: usize = 0;
        proof {
            assert(data@.skip(0) =~= data@);
        }
        let t = Self::decode(data, &mut pos)?;
        if pos != data.len() {
            return Err(CodecError::UnexpectedValue);
        }
        proof {
            assert(data@.skip(pos as int) =~= Seq::<u8>::empty());
        }
        Ok(t)
    }
}

/// An initial aggregate sub-request: the per-Aggregator view of one report.
#[derive(Clone, Debug, PartialEq, Eq)]
pub struct ReportShare {
    pub metadata: ReportMetadata,
    pub public_share: Vec<u8>,
    pub encrypted_input_share: HpkeCiphertext,
}

/// The mathematical value of a [`ReportShare`].
pub struct ReportShareView {
    pub metadata: ReportMetadataView,
    pub public_share: Seq<u8>,
    pub encrypted_input_share: HpkeCiphertextView,
}

impl View for ReportShare {
    type V = ReportShareView;

    open spec fn view(&self) -> ReportShareView {
        ReportShareView {
            metadata: self.metadata@,
            public_share: self.public_share@,
            encrypted_input_share: self.encrypted_input_share@,
        }
    }
}

impl DeepView for ReportShare {
    type V = ReportShareView;

    open spec fn deep_view(&self) -> ReportShareView {
        self.view()
    }
}

impl WireValue for ReportShareView {
    open spec fn encoding(self) -> Seq<u8> {
        self.metadata.encoding() + enc_prefixed_u32(self.public_share)
            + self.encrypted_input_share.encoding()
    }

    open spec fn encodable(self) -> bool {
        self.metadata.encodable() && fits_u32(self.public_share)
            && self.encrypted_input_share.encodable()
    }

    open spec fn wf(self) -> bool {
        self.metadata.wf() && fits_u32(self.public_share) && self.encrypted_input_share.wf()
    }

    open spec fn dec(s: Seq<u8>) -> Result<(ReportShareView, Seq<u8>), CodecError> {
        match ReportMetadataView::dec(s) {
            Err(e) => Err(e),
            Ok((metadata, s)) => match dec_prefixed_u32(s) {
                Err(e) => Err(e),
                Ok((public_share, s)) => match HpkeCiphertextView::dec(s) {
                    Err(e) => Err(e),
                    Ok((encrypted_input_share, s)) => Ok(
                        (ReportShareView { metadata, public_share, encrypted_input_share }, s),
                    ),
                },
            },
        }
    }

    proof fn lemma_round_trip(t: ReportShareView, rest: Seq<u8>) {
        let s2 = t.encrypted_input_share.encoding() + rest;
        let s1 = enc_prefixed_u32(t.public_share) + s2;
        lemma_concat4(
            t.metadata.encoding(),
            enc_prefixed_u32(t.public_share),
            t.encrypted_input_share.encoding(),
            rest,
        );
        ReportMetadataView::lemma_round_trip(t.metadata, s1);
        lemma_prefixed_u32_round_trip(t.public_share, s2);
        HpkeCiphertextView::lemma_round_trip(t.encrypted_input_share, rest);
    }

    proof fn lemma_canonical(s: Seq<u8>) {
        if Self::dec(s) is Ok {
            ReportMetadataView::lemma_canonical(s);
            let (metadata, s1) = ReportMetadataView::dec(s)->Ok_0;
            lemma_prefixed_u32_canonical(s1);
            let (public_share, s2) = dec_prefixed_u32(s1)->Ok_0;
            HpkeCiphertextView::lemma_canonical(s2);
            let (encrypted_input_share, rest) = HpkeCiphertextView::dec(s2)->Ok_0;
            lemma_concat4(
                metadata.encoding(),
                enc_prefixed_u32(public_share),
                encrypted_input_share.encoding(),
                rest,
            );
        }
    }
}

impl ReportShare {
    pub fn encode(&self, bytes: &mut Vec<u8>) -> (r: Result<(), CodecError>)
        ensures
            r is Ok <==> self@.encodable(),
            r is Ok ==> final(bytes)@ == old(bytes)@ + self@.encoding(),
    {
        self.metadata.encode(bytes)?;
        encode_u32_bytes(bytes, self.public_share.as_slice())?;
        self.encrypted_input_share.encode(bytes)?;
        proof {
            assert(bytes@ =~= old(bytes)@ + self@.encoding());
        }
        Ok(())
    }

    pub fn decode(bytes: &[u8], pos: &mut usize) -> (r: Result<ReportShare, CodecError>)
        requires
            *old(pos) <= bytes@.len(),
        ensures
            *old(pos) <= *final(pos) <= bytes@.len(),
            match r {
                Ok(t) => ReportShareView::dec(bytes@.skip(*old(pos) as int)) == Ok::<_, CodecError>(
                    (t@, bytes@.skip(*final(pos) as int)),
                ),
                Err(e) => ReportShareView::dec(bytes@.skip(*old(pos) as int)) == Err::<
                    (ReportShareView, Seq<u8>),
                    CodecError,
                >(e),
            },
    {
        let metadata = ReportMetadata::decode(bytes, pos)?;
        let public_share = decode_u32_bytes(bytes, pos)?;
        let encrypted_input_share = HpkeCiphertext::decode(bytes, pos)?;
        Ok(ReportShare { metadata, public_share, encrypted_input_share })
    }
}

/// A batch interval: a start time and a duration.
#[derive(Clone, Copy, Debug, PartialEq, Eq, Structural)]
pub struct Interval {
    pub start: Time,
    pub duration: Duration,
}

impl View for Interval {
    type V = Interval;

    open spec fn view(&self) -> Interval {
        *self
    }
}

impl DeepView for Interval {
    type V = Interval;

    open spec fn deep_view(&self) -> Interval {
        *self
    }
}

impl Default for Interval {
    /// The empty interval at the epoch.
    fn default() -> (r: Interval)
        ensures
            r == (Interval { start: 0, duration: 0 }),
    {
        Interval { start: 0, duration: 0 }
    }
}

impl Interval {
    /// The end of the interval: `start + duration`.
    pub fn end(&self) -> (r: Time)
        requires
            self.start + self.duration <= u64::MAX,
        ensures
            r == self.start + self.duration,
    {
        self.start + self.duration
    }

    pub open spec fn encoding(self) -> Seq<u8> {
        enc_u64(self.start) + enc_u64(self.duration)
    }

    pub open spec fn dec(s: Seq<u8>) -> Result<(Interval, Seq<u8>), CodecError> {
        match dec_u64(s) {
            Err(e) => Err(e),
            Ok((start, s)) => match dec_u64(s) {
                Err(e) => Err(e),
                Ok((duration, s)) => Ok((Interval { start, duration }, s)),
            },
        }
    }

    /// Decoding inverts encoding on every interval.
    pub proof fn lemma_round_trip(t: Interval, rest: Seq<u8>)
        ensures
            Self::dec(t.encoding() + rest) == Ok::<_, CodecError>((t, rest)),
            t.encoding().len() == 16,
    {
        lemma_concat3(enc_u64(t.start), enc_u64(t.duration), rest);
        lemma_u64_round_trip(t.start, enc_u64(t.duration) + rest);
        lemma_u64_round_trip(t.duration, rest);
    }

    /// Whatever decodes was the canonical encoding of what came out.
    pub proof fn lemma_canonical(s: Seq<u8>)
        ensures
            Self::dec(s) matches Ok((t, rest)) ==> t.encoding() + rest == s && rest.len() == s.len()
                - 16,
    {
        if Self::dec(s) is Ok {
            lemma_u64_canonical(s);
            let (start, s1) = dec_u64(s)->Ok_0;
            lemma_u64_canonical(s1);
            let (duration, rest) = dec_u64(s1)->Ok_0;
            lemma_concat3(enc_u64(start), enc_u64(duration), rest);
        }
    }

    /// What the decoder reads does not change when more input follows.
    pub proof fn lemma_prefix(s: Seq<u8>, extra: Seq<u8>)
        ensures
            Self::dec(s) matches Ok((t, rest)) ==> Self::dec(s + extra) == Ok::<_, CodecError>(
                (t, rest + extra),
            ),
    {
        lemma_u64_prefix(s, extra);
        if dec_u64(s) is Ok {
            let (start, s1) = dec_u64(s)->Ok_0;
            lemma_u64_prefix(s1, extra);
        }
    }

    pub fn encode(&self, bytes: &mut Vec<u8>) -> (r: Result<(), CodecError>)
        ensures
            r is Ok,
            final(bytes)@ == old(bytes)@ + self.encoding(),
    {
        encode_u64(bytes, self.start);
        encode_u64(bytes, self.duration);
        proof {
            assert(bytes@ =~= old(bytes)@ + self.encoding());
        }
        Ok(())
    }

    pub fn decode(bytes: &[u8], pos: &mut usize) -> (r: Result<Interval, CodecError>)
        requires
            *old(pos) <= bytes@.len(),
        ensures
            *old(pos) <= *final(pos) <= bytes@.len(),
            match r {
                Ok(t) => Interval::dec(bytes@.skip(*old(pos) as int)) == Ok::<_, CodecError>(
                    (t, bytes@.skip(*final(pos) as int)),
                ),
                Err(e) => Interval::dec(bytes@.skip(*old(pos) as int)) == Err::<
                    (Interval, Seq<u8>),
                    CodecError,
                >(e),
            },
    {
        let start = decode_u64(bytes, pos)?;
        let duration = decode_u64(bytes, pos)?;
        Ok(Interval { start, duration })
    }
}

/// A query issued by the Collector in a collect request.
#[derive(Clone, Debug, PartialEq, Eq)]
pub enum Query {
    TimeInterval { batch_interval: Interval },
    FixedSize { batch_id: Id },
}

/// The mathematical value of a [`Query`].
pub enum QueryView {
    TimeInterval { batch_interval: Interval },
    FixedSize { batch_id: Seq<u8> },
}

impl View for Query {
    type V = QueryView;

    open spec fn view(&self) -> QueryView {
        match self {
            Query::TimeInterval { batch_interval } => QueryView::TimeInterval {
                batch_interval: *batch_interval,
            },
            Query::FixedSize { batch_id } => QueryView::FixedSize { batch_id: batch_id@ },
        }
    }
}

impl DeepView for Query {
    type V = QueryView;

    open spec fn deep_view(&self) -> QueryView {
        self.view()
    }
}

/// A batch selector issued by the Leader in an aggregate-share request. The
/// structure is identical to a query.
pub type BatchSelector = Query;

impl QueryView {
    pub open spec fn encoding(self) -> Seq<u8> {
        match self {
            QueryView::TimeInterval { batch_interval } => enc_u16(QUERY_TYPE_TIME_INTERVAL)
                + batch_interval.encoding(),
            QueryView::FixedSize { batch_id } => enc_u16(QUERY_TYPE_FIXED_SIZE) + batch_id,
        }
    }

    pub open spec fn encodable(self) -> bool {
        true
    }

    pub open spec fn wf(self) -> bool {
        match self {
            QueryView::TimeInterval { batch_interval } => true,
            QueryView::FixedSize { batch_id } => id_wf(batch_id),
        }
    }

    pub open spec fn dec(s: Seq<u8>) -> Result<(QueryView, Seq<u8>), CodecError> {
        match dec_u16(s) {
            Err(e) => Err(e),
            Ok((tag, s)) => if tag == QUERY_TYPE_TIME_INTERVAL {
                match Interval::dec(s) {
                    Err(e) => Err(e),
                    Ok((batch_interval, s)) => Ok((QueryView::TimeInterval { batch_interval }, s)),
                }
            } else if tag == QUERY_TYPE_FIXED_SIZE {
                match dec_fixed(s, 32) {
                    Err(e) => Err(e),
                    Ok((batch_id, s)) => Ok((QueryView::FixedSize { batch_id }, s)),
                }
            } else {
                Err(CodecError::UnexpectedValue)
            },
        }
    }

    /// Decoding inverts encoding on every well-formed query.
    pub proof fn lemma_round_trip(t: QueryView, rest: Seq<u8>)
        requires
            t.wf(),
        ensures
            Self::dec(t.encoding() + rest) == Ok::<_, CodecError>((t, rest)),
            t.encoding().len() >= 1,
    {
        match t {
            QueryView::TimeInterval { batch_interval } => {
                lemma_concat3(enc_u16(QUERY_TYPE_TIME_INTERVAL), batch_interval.encoding(), rest);
                lemma_u16_round_trip(QUERY_TYPE_TIME_INTERVAL, batch_interval.encoding() + rest);
                Interval::lemma_round_trip(batch_interval, rest);
            },
            QueryView::FixedSize { batch_id } => {
                lemma_concat3(enc_u16(QUERY_TYPE_FIXED_SIZE), batch_id, rest);
                lemma_u16_round_trip(QUERY_TYPE_FIXED_SIZE, batch_id + rest);
                lemma_fixed_round_trip(batch_id, rest);
            },
        }
    }

    /// Whatever decodes was the canonical encoding of what came out.
    pub proof fn lemma_canonical(s: Seq<u8>)
        ensures
            Self::dec(s) matches Ok((t, rest)) ==> t.wf() && t.encoding() + rest == s,
    {
        if dec_u16(s) is Ok {
            lemma_u16_canonical(s);
            let (tag, s1) = dec_u16(s)->Ok_0;
            if tag == QUERY_TYPE_TIME_INTERVAL {
                Interval::lemma_canonical(s1);
                if Interval::dec(s1) is Ok {
                    let (batch_interval, rest) = Interval::dec(s1)->Ok_0;
                    lemma_concat3(
                        enc_u16(QUERY_TYPE_TIME_INTERVAL),
                        batch_interval.encoding(),
                        rest,
                    );
                }
            } else if tag == QUERY_TYPE_FIXED_SIZE {
                lemma_fixed_canonical(s1, 32);
                if dec_fixed(s1, 32) is Ok {
                    let (batch_id, rest) = dec_fixed(s1, 32)->Ok_0;
                    lemma_concat3(enc_u16(QUERY_TYPE_FIXED_SIZE), batch_id, rest);
                }
            }
        }
    }

    /// What the decoder reads does not change when more input follows.
    pub proof fn lemma_prefix(s: Seq<u8>, extra: Seq<u8>)
        ensures
            Self::dec(s) matches Ok((t, rest)) ==> Self::dec(s + extra) == Ok::<_, CodecError>(
                (t, rest + extra),
            ),
    {
        lemma_u16_prefix(s, extra);
        if dec_u16(s) is Ok {
            let (tag, s1) = dec_u16(s)->Ok_0;
            if tag == QUERY_TYPE_TIME_INTERVAL {
                Interval::lemma_prefix(s1, extra);
            } else if tag == QUERY_TYPE_FIXED_SIZE {
                lemma_fixed_prefix(s1, extra, 32);
            }
        }
    }
}

impl Default for Query {
    /// A time-interval query over the empty interval.
    fn default() -> (r: Query)
        ensures
            r@ == (QueryView::TimeInterval {
                batch_interval: Interval { start: 0, duration: 0 },
            }),
    {
        Query::TimeInterval { batch_interval: Interval { start: 0, duration: 0 } }
    }
}

impl Query {
    /// A reference to the query's batch interval, for time-interval queries
    /// alone; a fixed-size query has none.
    pub fn unwrap_interval(&self) -> (r: Option<&Interval>)
        ensures
            r is Some <==> self@ is TimeInterval,
            r matches Some(i) ==> self@ == (QueryView::TimeInterval { batch_interval: *i }),
    {
        match self {
            Query::TimeInterval { batch_interval } => Some(batch_interval),
            Query::FixedSize { .. } => None,
        }
    }

    pub fn encode(&self, bytes: &mut Vec<u8>) -> (r: Result<(), CodecError>)
        ensures
            r is Ok,
            final(bytes)@ == old(bytes)@ + self@.encoding(),
    {
        match self {
            Query::TimeInterval { batch_interval } => {
                encode_u16(bytes, QUERY_TYPE_TIME_INTERVAL);
                batch_interval.encode(bytes)?;
            },
            Query::FixedSize { batch_id } => {
                encode_u16(bytes, QUERY_TYPE_FIXED_SIZE);
                batch_id.encode(bytes)?;
            },
        }
        proof {
            assert(bytes@ =~= old(bytes)@ + self@.encoding());
        }
        Ok(())
    }

    pub fn decode(bytes: &[u8], pos: &mut usize) -> (r: Result<Query, CodecError>)
        requires
            *old(pos) <= bytes@.len(),
        ensures
            *old(pos) <= *final(pos) <= bytes@.len(),
            match r {
                Ok(t) => QueryView::dec(bytes@.skip(*old(pos) as int)) == Ok::<_, CodecError>(
                    (t@, bytes@.skip(*final(pos) as int)),
                ),
                Err(e) => QueryView::dec(bytes@.skip(*old(pos) as int)) == Err::<
                    (QueryView, Seq<u8>),
                    CodecError,
                >(e),
            },
    {
        let tag = decode_u16(bytes, pos)?;
        if tag == QUERY_TYPE_TIME_INTERVAL {
            let batch_interval = Interval::decode(bytes, pos)?;
            Ok(Query::TimeInterval { batch_interval })
        } else if tag == QUERY_TYPE_FIXED_SIZE {
            let batch_id = Id::decode(bytes, pos)?;
            Ok(Query::FixedSize { batch_id })
        } else {
            Err(CodecError::UnexpectedValue)
        }
    }
}

/// A collect request.
#[derive(Clone, Debug, PartialEq, Eq)]
pub struct CollectReq {
    pub task_id: Id,
    pub query: Query,
    pub agg_param: Vec<u8>,
}

/// The mathematical value of a [`CollectReq`].
pub struct CollectReqView {
    pub task_id: Seq<u8>,
    pub query: QueryView,
    pub agg_param: Seq<u8>,
}

impl View for CollectReq {
    type V = CollectReqView;

    open spec fn view(&self) -> CollectReqView {
        CollectReqView { task_id: self.task_id@, query: self.query@, agg_param: self.agg_param@ }
    }
}

impl DeepView for CollectReq {
    type V = CollectReqView;

    open spec fn deep_view(&self) -> CollectReqView {
        self.view()
    }
}

impl CollectReqView {
    pub open spec fn encoding(self) -> Seq<u8> {
        self.task_id + self.query.encoding() + enc_prefixed_u16(self.agg_param)
    }

    pub open spec fn encodable(self) -> bool {
        fits_u16(self.agg_param)
    }

    pub open spec fn wf(self) -> bool {
        id_wf(self.task_id) && self.query.wf() && fits_u16(self.agg_param)
    }

    pub open spec fn dec(s: Seq<u8>) -> Result<(CollectReqView, Seq<u8>), CodecError> {
        match dec_fixed(s, 32) {
            Err(e) => Err(e),
            Ok((task_id, s)) => match QueryView::dec(s) {
                Err(e) => Err(e),
                Ok((query, s)) => match dec_prefixed_u16(s) {
                    Err(e) => Err(e),
                    Ok((agg_param, s)) => Ok((CollectReqView { task_id, query, agg_param }, s)),
                },
            },
        }
    }

    /// Decoding inverts encoding on every well-formed collect request.
    pub proof fn lemma_round_trip(t: CollectReqView, rest: Seq<u8>)
        requires
            t.wf(),
        ensures
            Self::dec(t.encoding() + rest) == Ok::<_, CodecError>((t, rest)),
            t.encoding().len() >= 1,
    {
        let s2 = enc_prefixed_u16(t.agg_param) + rest;
        let s1 = t.query.encoding() + s2;
        lemma_concat4(t.task_id, t.query.encoding(), enc_prefixed_u16(t.agg_param), rest);
        lemma_fixed_round_trip(t.task_id, s1);
        QueryView::lemma_round_trip(t.query, s2);
        lemma_prefixed_u16_round_trip(t.agg_param, rest);
    }

    /// Whatever decodes was the canonical encoding of what came out.
    pub proof fn lemma_canonical(s: Seq<u8>)
        ensures
            Self::dec(s) matches Ok((t, rest)) ==> t.wf() && t.encoding() + rest == s,
    {
        if Self::dec(s) is Ok {
            lemma_fixed_canonical(s, 32);
            let (task_id, s1) = dec_fixed(s, 32)->Ok_0;
            QueryView::lemma_canonical(s1);
            let (query, s2) = QueryView::dec(s1)->Ok_0;
            lemma_prefixed_u16_canonical(s2);
            let (agg_param, rest) = dec_prefixed_u16(s2)->Ok_0;
            lemma_concat4(task_id, query.encoding(), enc_prefixed_u16(agg_param), rest);
        }
    }

    /// What the decoder reads does not change when more input follows.
    pub proof fn lemma_prefix(s: Seq<u8>, extra: Seq<u8>)
        ensures
            Self::dec(s) matches Ok((t, rest)) ==> Self::dec(s + extra) == Ok::<_, CodecError>(
                (t, rest + extra),
            ),
    {
        lemma_fixed_prefix(s, extra, 32);
        if dec_fixed(s, 32) is Ok {
            let (task_id, s1) = dec_fixed(s, 32)->Ok_0;
            QueryView::lemma_prefix(s1, extra);
            if QueryView::dec(s1) is Ok {
                let (query, s2) = QueryView::dec(s1)->Ok_0;
                lemma_prefixed_u16_prefix(s2, extra);
            }
        }
    }

    /// A buffer truncated by at least one byte anywhere inside a well-formed
    /// collect request fails to decode in full.
    pub proof fn lemma_truncation(t: CollectReqView, k: int)
        requires
            t.wf(),
            0 <= k < t.encoding().len(),
        ensures
            dec_full(Self::dec(t.encoding().take(k))) is Err,
    {
        let enc = t.encoding();
        let p = enc.take(k);
        if Self::dec(p) is Ok {
            let (u, rest) = Self::dec(p)->Ok_0;
            if rest.len() == 0 {
                Self::lemma_prefix(p, enc.skip(k));
                crate::codec::lemma_take_skip(enc, k);
                Self::lemma_round_trip(t, Seq::empty());
                crate::codec::lemma_add_empty_right(enc);
                crate::codec::lemma_add_empty_left(enc.skip(k));
                assert(false);
            }
        }
    }
}

impl CollectReq {
    pub fn encode(&self, bytes: &mut Vec<u8>) -> (r: Result<(), CodecError>)
        ensures
            r is Ok <==> self@.encodable(),
            r is Ok ==> final(bytes)@ == old(bytes)@ + self@.encoding(),
    {
        self.task_id.encode(bytes)?;
        self.query.encode(bytes)?;
        encode_u16_bytes(bytes, self.agg_param.as_slice())?;
        proof {
            assert(bytes@ =~= old(bytes)@ + self@.encoding());
        }
        Ok(())
    }

    pub fn decode(bytes: &[u8], pos: &mut usize) -> (r: Result<CollectReq, CodecError>)
        requires
            *old(pos) <= bytes@.len(),
        ensures
            *old(pos) <= *final(pos) <= bytes@.len(),
            match r {
                Ok(t) => CollectReqView::dec(bytes@.skip(*old(pos) as int)) == Ok::<_, CodecError>(
                    (t@, bytes@.skip(*final(pos) as int)),
                ),
                Err(e) => CollectReqView::dec(bytes@.skip(*old(pos) as int)) == Err::<
                    (CollectReqView, Seq<u8>),
                    CodecError,
                >(e),
            },
    {
        let task_id = Id::decode(bytes, pos)?;
        let query = Query::decode(bytes, pos)?;
        let agg_param = decode_u16_bytes(bytes, pos)?;
        Ok(CollectReq { task_id, query, agg_param })
    }
}

/// A collect response.
#[derive(Clone, Debug, PartialEq, Eq)]
pub struct CollectResp {
    pub report_count: u64,
    pub encrypted_agg_shares: Vec<HpkeCiphertext>,
}

/// The mathematical value of a [`CollectResp`].
pub struct CollectRespView {
    pub report_count: u64,
    pub encrypted_agg_shares: Seq<HpkeCiphertextView>,
}

impl View for CollectResp {
    type V = CollectRespView;

    open spec fn view(&self) -> CollectRespView {
        CollectRespView {
            report_count: self.report_count,
            encrypted_agg_shares: self.encrypted_agg_shares.deep_view(),
        }
    }
}

impl DeepView for CollectResp {
    type V = CollectRespView;

    open spec fn deep_view(&self) -> CollectRespView {
        self.view()
    }
}

impl CollectRespView {
    pub open spec fn encoding(self) -> Seq<u8> {
        enc_u64(self.report_count) + enc_ciphertext_list_u32(self.encrypted_agg_shares)
    }

    pub open spec fn encodable(self) -> bool {
        ciphertext_list_u32_encodable(self.encrypted_agg_shares)
    }

    pub open spec fn wf(self) -> bool {
        items_wf(self.encrypted_agg_shares) && fits_u32(items_encoding(self.encrypted_agg_shares))
    }

    pub open spec fn dec(s: Seq<u8>) -> Result<(CollectRespView, Seq<u8>), CodecError> {
        match dec_u64(s) {
            Err(e) => Err(e),
            Ok((report_count, s)) => match dec_ciphertext_list_u32(s) {
                Err(e) => Err(e),
                Ok((encrypted_agg_shares, s)) => Ok(
                    (CollectRespView { report_count, encrypted_agg_shares }, s),
                ),
            },
        }
    }

    /// Decoding inverts encoding on every well-formed collect response.
    pub proof fn lemma_round_trip(t: CollectRespView, rest: Seq<u8>)
        requires
            t.wf(),
        ensures
            Self::dec(t.encoding() + rest) == Ok::<_, CodecError>((t, rest)),
            t.encoding().len() >= 1,
    {
        lemma_concat3(
            enc_u64(t.report_count),
            enc_ciphertext_list_u32(t.encrypted_agg_shares),
            rest,
        );
        lemma_u64_round_trip(
            t.report_count,
            enc_ciphertext_list_u32(t.encrypted_agg_shares) + rest,
        );
        lemma_ciphertext_list_u32_round_trip(t.encrypted_agg_shares, rest);
    }

    /// Whatever decodes was the canonical encoding of what came out.
    pub proof fn lemma_canonical(s: Seq<u8>)
        ensures
            Self::dec(s) matches Ok((t, rest)) ==> t.wf() && t.encoding() + rest == s,
    {
        if Self::dec(s) is Ok {
            lemma_u64_canonical(s);
            let (report_count, s1) = dec_u64(s)->Ok_0;
            lemma_ciphertext_list_u32_canonical(s1);
            let (encrypted_agg_shares, rest) = dec_ciphertext_list_u32(s1)->Ok_0;
            lemma_concat3(
                enc_u64(report_count),
                enc_ciphertext_list_u32(encrypted_agg_shares),
                rest,
            );
        }
    }

    /// What the decoder reads does not change when more input follows.
    pub proof fn lemma_prefix(s: Seq<u8>, extra: Seq<u8>)
        ensures
            Self::dec(s) matches Ok((t, rest)) ==> Self::dec(s + extra) == Ok::<_, CodecError>(
                (t, rest + extra),
            ),
    {
        lemma_u64_prefix(s, extra);
        if dec_u64(s) is Ok {
            let (report_count, s1) = dec_u64(s)->Ok_0;
            lemma_ciphertext_list_u32_prefix(s1, extra);
        }
    }

    /// A buffer truncated by at least one byte anywhere inside a well-formed
    /// collect response fails to decode in full.
    pub proof fn lemma_truncation(t: CollectRespView, k: int)
        requires
            t.wf(),
            0 <= k < t.encoding().len(),
        ensures
            dec_full(Self::dec(t.encoding().take(k))) is Err,
    {
        let enc = t.encoding();
        let p = enc.take(k);
        if Self::dec(p) is Ok {
            let (u, rest) = Self::dec(p)->Ok_0;
            if rest.len() == 0 {
                Self::lemma_prefix(p, enc.skip(k));
                crate::codec::lemma_take_skip(enc, k);
                Self::lemma_round_trip(t, Seq::empty());
                crate::codec::lemma_add_empty_right(enc);
                crate::codec::lemma_add_empty_left(enc.skip(k));
                assert(false);
            }
        }
    }
}

impl CollectResp {
    pub fn encode(&self, bytes: &mut Vec<u8>) -> (r: Result<(), CodecError>)
        ensures
            r is Ok <==> self@.encodable(),
            r is Ok ==> final(bytes)@ == old(bytes)@ + self@.encoding(),
    {
        encode_u64(bytes, self.report_count);
        encode_ciphertext_list_u32(bytes, &self.encrypted_agg_shares)?;
        proof {
            assert(bytes@ =~= old(bytes)@ + self@.encoding());
        }
        Ok(())
    }

    pub fn decode(bytes: &[u8], pos: &mut usize) -> (r: Result<CollectResp, CodecError>)
        requires
            *old(pos) <= bytes@.len(),
        ensures
            *old(pos) <= *final(pos) <= bytes@.len(),
            match r {
                Ok(t) => CollectRespView::dec(bytes@.skip(*old(pos) as int)) == Ok::<_, CodecError>(
                    (t@, bytes@.skip(*final(pos) as int)),
                ),
                Err(e) => CollectRespView::dec(bytes@.skip(*old(pos) as int)) == Err::<
                    (CollectRespView, Seq<u8>),
                    CodecError,
                >(e),
            },
    {
        let report_count = decode_u64(bytes, pos)?;
        let encrypted_agg_shares = decode_ciphertext_list_u32(bytes, pos)?;
        Ok(CollectResp { report_count, encrypted_agg_shares })
    }
}

/// Compare two byte strings in time independent of where they first differ:
/// every byte is visited, and the comparison never exits early on a mismatch.
pub fn constant_time_eq(left: &[u8], right: &[u8]) -> (r: bool)
    ensures
        r == (left@ == right@),
{
    if left.len() != right.len() {
        proof {
            assert(left@ != right@);
        }
        return false;
    }
    let mut acc: u8 = 0;
    let mut i: usize = 0;
    proof {
        assert(left@.take(0) =~= right@.take(0));
    }
    while i < left.len()
        invariant
            left@.len() == right@.len(),
            i <= left@.len(),
            (acc == 0) <==> (left@.take(i as int) == right@.take(i as int)),
        decreases left@.len() - i,
    {
        let x = left[i];
        let y = right[i];
        let ghost acc0 = acc;
        acc = acc | (x ^ y);
        proof {
            assert((acc0 | (x ^ y)) == 0 <==> acc0 == 0 && x == y) by (bit_vector);
            if acc == 0 {
                assert(left@.take(i as int + 1) =~= right@.take(i as int + 1));
            } else {
                if left@.take(i as int + 1) == right@.take(i as int + 1) {
                    let lt = left@.take(i as int + 1);
                    let rt = right@.take(i as int + 1);
                    assert(lt[i as int] == rt[i as int]);
                    assert(left@.take(i as int) =~= lt.take(i as int));
                    assert(right@.take(i as int) =~= rt.take(i as int));
                    assert(false);
                }
            }
        }
        i = i + 1;
    }
    proof {
        assert(left@.take(i as int) =~= left@);
        assert(right@.take(i as int) =~= right@);
    }
    acc == 0
}

} // verus!
