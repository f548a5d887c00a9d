//! HPKE configuration and ciphertext messages.
//!
//! KEM, KDF and AEAD identifiers are closed enumerations of 16-bit codes with a
//! `NotImplemented` variant that preserves an unknown code, so that decoding
//! never loses information and re-encoding is lossless.

use vstd::prelude::*;
use crate::codec::{
    CodecError, WireValue, dec_full, dec_items, dec_prefixed_u16, dec_prefixed_u32, dec_u16,
    dec_u8, decode_u16, decode_u16_bytes, decode_u32_bytes, decode_u8, enc_prefixed_u16,
    enc_prefixed_u32, enc_u16, enc_u8, encode_u16, encode_u16_bytes, encode_u32_bytes, encode_u8,
    fits_u16, fits_u32, items_encodable, items_encoding, lemma_items_encoding_push,
    lemma_prefixed_u16_canonical, lemma_prefixed_u16_prefix, lemma_prefixed_u16_round_trip,
    lemma_prefixed_u32_canonical, lemma_prefixed_u32_prefix, lemma_prefixed_u32_round_trip,
    lemma_u16_canonical, lemma_u16_prefix, lemma_u16_round_trip, lemma_u8_canonical,
    lemma_u8_prefix, lemma_u8_round_trip,
};

verus! {

pub const KEM_ID_P256_HKDF_SHA256: u16 = 0x0010;

pub const KEM_ID_X25519_HKDF_SHA256: u16 = 0x0020;

pub const KDF_ID_HKDF_SHA256: u16 = 0x0001;

pub const AEAD_ID_AES128GCM: u16 = 0x0001;

/// Codepoint for KEM schemes compatible with HPKE.
#[derive(Clone, Copy, Debug, PartialEq, Eq)]
pub enum HpkeKemId {
    P256HkdfSha256,
    X25519HkdfSha256,
    NotImplemented(u16),
}

impl View for HpkeKemId {
    type V = HpkeKemId;

    open spec fn view(&self) -> HpkeKemId {
        *self
    }
}

impl DeepView for HpkeKemId {
    type V = HpkeKemId;

    open spec fn deep_view(&self) -> HpkeKemId {
        *self
    }
}

impl HpkeKemId {
    /// The 16-bit code of this identifier.
    pub open spec fn spec_code(self) -> u16 {
        match self {
            HpkeKemId::P256HkdfSha256 => KEM_ID_P256_HKDF_SHA256,
            HpkeKemId::X25519HkdfSha256 => KEM_ID_X25519_HKDF_SHA256,
            HpkeKemId::NotImplemented(x) => x,
        }
    }

    /// The variant that a 16-bit code decodes to.
    pub open spec fn from_code(x: u16) -> HpkeKemId {
        if x == KEM_ID_P256_HKDF_SHA256 {
            HpkeKemId::P256HkdfSha256
        } else if x == KEM_ID_X25519_HKDF_SHA256 {
            HpkeKemId::X25519HkdfSha256
        } else {
            HpkeKemId::NotImplemented(x)
        }
    }

    /// A known code never hides in the `NotImplemented` variant.
    pub open spec fn wf(self) -> bool {
        match self {
            HpkeKemId::NotImplemented(x) => x != KEM_ID_P256_HKDF_SHA256 && x
                != KEM_ID_X25519_HKDF_SHA256,
            _ => true,
        }
    }

    pub open spec fn encoding(self) -> Seq<u8> {
        enc_u16(self.spec_code())
    }

    pub open spec fn dec(s: Seq<u8>) -> Result<(HpkeKemId, Seq<u8>), CodecError> {
        match dec_u16(s) {
            Ok((x, rest)) => Ok((HpkeKemId::from_code(x), rest)),
            Err(e) => Err(e),
        }
    }

    /// The 16-bit code of this identifier.
    pub fn code(&self) -> (r: u16)
        ensures
            r == self.spec_code(),
    {
        match self {
            HpkeKemId::P256HkdfSha256 => KEM_ID_P256_HKDF_SHA256,
            HpkeKemId::X25519HkdfSha256 => KEM_ID_X25519_HKDF_SHA256,
            HpkeKemId::NotImplemented(x) => *x,
        }
    }

    pub fn encode(&self, bytes: &mut Vec<u8>) -> (r: Result<(), CodecError>)
        ensures
            r is Ok,
            final(bytes)@ == old(bytes)@ + self.encoding(),
    {
        encode_u16(bytes, self.code());
        Ok(())
    }

    pub fn decode(bytes: &[u8], pos: &mut usize) -> (r: Result<HpkeKemId, CodecError>)
        requires
            *old(pos) <= bytes@.len(),
        ensures
            *old(pos) <= *final(pos) <= bytes@.len(),
            match r {
                Ok(t) => Self::dec(bytes@.skip(*old(pos) as int)) == Ok::<_, CodecError>(
                    (t, bytes@.skip(*final(pos) as int)),
                ) && t.wf(),
                Err(e) => Self::dec(bytes@.skip(*old(pos) as int)) == Err::<
                    (HpkeKemId, Seq<u8>),
                    CodecError,
                >(e),
            },
    {
        let x = decode_u16(bytes, pos)?;
        if x == KEM_ID_P256_HKDF_SHA256 {
            Ok(HpkeKemId::P256HkdfSha256)
        } else if x == KEM_ID_X25519_HKDF_SHA256 {
            Ok(HpkeKemId::X25519HkdfSha256)
        } else {
            Ok(HpkeKemId::NotImplemented(x))
        }
    }

    /// Unknown codes survive a decode-encode round trip unchanged, and known
    /// codes decode to their named variants and re-encode to the same bytes.
    pub proof fn lemma_round_trip(t: HpkeKemId, rest: Seq<u8>)
        requires
            t.wf(),
        ensures
            Self::dec(t.encoding() + rest) == Ok::<_, CodecError>((t, rest)),
            t.encoding().len() == 2,
    {
        lemma_u16_round_trip(t.spec_code(), rest);
    }

    /// Whatever decodes was the canonical encoding of what came out.
    pub proof fn lemma_canonical(s: Seq<u8>)
        ensures
            Self::dec(s) matches Ok((t, rest)) ==> t.wf() && t.encoding() + rest == s,
    {
        lemma_u16_canonical(s);
    }

    /// What the decoder reads does not change when more input follows.
    pub proof fn lemma_prefix(s: Seq<u8>, extra: Seq<u8>)
        ensures
            Self::dec(s) matches Ok((t, rest)) ==> Self::dec(s + extra) == Ok::<_, CodecError>(
                (t, rest + extra),
            ),
    {
        lemma_u16_prefix(s, extra);
    }
}

/// Codepoint for KDF schemes compatible with HPKE.
#[derive(Clone, Copy, Debug, PartialEq, Eq)]
pub enum HpkeKdfId {
    HkdfSha256,
    NotImplemented(u16),
}

impl View for HpkeKdfId {
    type V = HpkeKdfId;

    open spec fn view(&self) -> HpkeKdfId {
        *self
    }
}

impl DeepView for HpkeKdfId {
    type V = HpkeKdfId;

    open spec fn deep_view(&self) -> HpkeKdfId {
        *self
    }
}

impl HpkeKdfId {
    /// The 16-bit code of this identifier.
    pub open spec fn spec_code(self) -> u16 {
        match self {
            HpkeKdfId::HkdfSha256 => KDF_ID_HKDF_SHA256,
            HpkeKdfId::NotImplemented(x) => x,
        }
    }

    /// The variant that a 16-bit code decodes to.
    pub open spec fn from_code(x: u16) -> HpkeKdfId {
        if x == KDF_ID_HKDF_SHA256 {
            HpkeKdfId::HkdfSha256
        } else {
            HpkeKdfId::NotImplemented(x)
        }
    }

    /// A known code never hides in the `NotImplemented` variant.
    pub open spec fn wf(self) -> bool {
        match self {
            HpkeKdfId::NotImplemented(x) => x != KDF_ID_HKDF_SHA256,
            _ => true,
        }
    }

    pub open spec fn encoding(self) -> Seq<u8> {
        enc_u16(self.spec_code())
    }

    pub open spec fn dec(s: Seq<u8>) -> Result<(HpkeKdfId, Seq<u8>), CodecError> {
        match dec_u16(s) {
            Ok((x, rest)) => Ok((HpkeKdfId::from_code(x), rest)),
            Err(e) => Err(e),
        }
    }

    /// The 16-bit code of this identifier.
    pub fn code(&self) -> (r: u16)
        ensures
            r == self.spec_code(),
    {
        match self {
            HpkeKdfId::HkdfSha256 => KDF_ID_HKDF_SHA256,
            HpkeKdfId::NotImplemented(x) => *x,
        }
    }

    pub fn encode(&self, bytes: &mut Vec<u8>) -> (r: Result<(), CodecError>)
        ensures
            r is Ok,
            final(bytes)@ == old(bytes)@ + self.encoding(),
    {
        encode_u16(bytes, self.code());
        Ok(())
    }

    pub fn decode(bytes: &[u8], pos: &mut usize) -> (r: Result<HpkeKdfId, CodecError>)
        requires
            *old(pos) <= bytes@.len(),
        ensures
            *old(pos) <= *final(pos) <= bytes@.len(),
            match r {
                Ok(t) => Self::dec(bytes@.skip(*old(pos) as int)) == Ok::<_, CodecError>(
                    (t, bytes@.skip(*final(pos) as int)),
                ) && t.wf(),
                Err(e) => Self::dec(bytes@.skip(*old(pos) as int)) == Err::<
                    (HpkeKdfId, Seq<u8>),
                    CodecError,
                >(e),
            },
    {
        let x = decode_u16(bytes, pos)?;
        if x == KDF_ID_HKDF_SHA256 {
            Ok(HpkeKdfId::HkdfSha256)
        } else {
            Ok(HpkeKdfId::NotImplemented(x))
        }
    }

    /// Unknown codes survive a decode-encode round trip unchanged, and known
    /// codes decode to their named variants and re-encode to the same bytes.
    pub proof fn lemma_round_trip(t: HpkeKdfId, rest: Seq<u8>)
        requires
            t.wf(),
        ensures
            Self::dec(t.encoding() + rest) == Ok::<_, CodecError>((t, rest)),
            t.encoding().len() == 2,
    {
        lemma_u16_round_trip(t.spec_code(), rest);
    }

    /// Whatever decodes was the canonical encoding of what came out.
    pub proof fn lemma_canonical(s: Seq<u8>)
        ensures
            Self::dec(s) matches Ok((t, rest)) ==> t.wf() && t.encoding() + rest == s,
    {
        lemma_u16_canonical(s);
    }

    /// What the decoder reads does not change when more input follows.
    pub proof fn lemma_prefix(s: Seq<u8>, extra: Seq<u8>)
        ensures
            Self::dec(s) matches Ok((t, rest)) ==> Self::dec(s + extra) == Ok::<_, CodecError>(
                (t, rest + extra),
            ),
    {
        lemma_u16_prefix(s, extra);
    }
}

/// Codepoint for AEAD schemes compatible with HPKE.
#[derive(Clone, Copy, Debug, PartialEq, Eq)]
pub enum HpkeAeadId {
    Aes128Gcm,
    NotImplemented(u16),
}

impl View for HpkeAeadId {
    type V = HpkeAeadId;

    open spec fn view(&self) -> HpkeAeadId {
        *self
    }
}

impl DeepView for HpkeAeadId {
    type V = HpkeAeadId;

    open spec fn deep_view(&self) -> HpkeAeadId {
        *self
    }
}

impl HpkeAeadId {
    /// The 16-bit code of this identifier.
    pub open spec fn spec_code(self) -> u16 {
        match self {
            HpkeAeadId::Aes128Gcm => AEAD_ID_AES128GCM,
            HpkeAeadId::NotImplemented(x) => x,
        }
    }

    /// The variant that a 16-bit code decodes to.
    pub open spec fn from_code(x: u16) -> HpkeAeadId {
        if x == AEAD_ID_AES128GCM {
            HpkeAeadId::Aes128Gcm
        } else {
            HpkeAeadId::NotImplemented(x)
        }
    }

    /// A known code never hides in the `NotImplemented` variant.
    pub open spec fn wf(self) -> bool {
        match self {
            HpkeAeadId::NotImplemented(x) => x != AEAD_ID_AES128GCM,
            _ => true,
        }
    }

    pub open spec fn encoding(self) -> Seq<u8> {
        enc_u16(self.spec_code())
    }

    pub open spec fn dec(s: Seq<u8>) -> Result<(HpkeAeadId, Seq<u8>), CodecError> {
        match dec_u16(s) {
            Ok((x, rest)) => Ok((HpkeAeadId::from_code(x), rest)),
            Err(e) => Err(e),
        }
    }

    /// The 16-bit code of this identifier.
    pub fn code(&self) -> (r: u16)
        ensures
            r == self.spec_code(),
    {
        match self {
            HpkeAeadId::Aes128Gcm => AEAD_ID_AES128GCM,
            HpkeAeadId::NotImplemented(x) => *x,
        }
    }

    pub fn encode(&self, bytes: &mut Vec<u8>) -> (r: Result<(), CodecError>)
        ensures
            r is Ok,
            final(bytes)@ == old(bytes)@ + self.encoding(),
    {
        encode_u16(bytes, self.code());
        Ok(())
    }

    pub fn decode(bytes: &[u8], pos: &mut usize) -> (r: Result<HpkeAeadId, CodecError>)
        requires
            *old(pos) <= bytes@.len(),
        ensures
            *old(pos) <= *final(pos) <= bytes@.len(),
            match r {
                Ok(t) => Self::dec(bytes@.skip(*old(pos) as int)) == Ok::<_, CodecError>(
                    (t, bytes@.skip(*final(pos) as int)),
                ) && t.wf(),
                Err(e) => Self::dec(bytes@.skip(*old(pos) as int)) == Err::<
                    (HpkeAeadId, Seq<u8>),
                    CodecError,
                >(e),
            },
    {
        let x = decode_u16(bytes, pos)?;
        if x == AEAD_ID_AES128GCM {
            Ok(HpkeAeadId::Aes128Gcm)
        } else {
            Ok(HpkeAeadId::NotImplemented(x))
        }
    }

    /// Unknown codes survive a decode-encode round trip unchanged, and known
    /// codes decode to their named variants and re-encode to the same bytes.
    pub proof fn lemma_round_trip(t: HpkeAeadId, rest: Seq<u8>)
        requires
            t.wf(),
        ensures
            Self::dec(t.encoding() + rest) == Ok::<_, CodecError>((t, rest)),
            t.encoding().len() == 2,
    {
        lemma_u16_round_trip(t.spec_code(), rest);
    }

    /// Whatever decodes was the canonical encoding of what came out.
    pub proof fn lemma_canonical(s: Seq<u8>)
        ensures
            Self::dec(s) matches Ok((t, rest)) ==> t.wf() && t.encoding() + rest == s,
    {
        lemma_u16_canonical(s);
    }

    /// What the decoder reads does not change when more input follows.
    pub proof fn lemma_prefix(s: Seq<u8>, extra: Seq<u8>)
        ensures
            Self::dec(s) matches Ok((t, rest)) ==> Self::dec(s + extra) == Ok::<_, CodecError>(
                (t, rest + extra),
            ),
    {
        lemma_u16_prefix(s, extra);
    }
}

/// The HPKE public key configuration of a server.
#[derive(Clone, Debug, PartialEq, Eq)]
pub struct HpkeConfig {
    pub id: u8,
    pub kem_id: HpkeKemId,
    pub kdf_id: HpkeKdfId,
    pub aead_id: HpkeAeadId,
    pub public_key: Vec<u8>,
}

/// The mathematical value of an [`HpkeConfig`].
pub struct HpkeConfigView {
    pub id: u8,
    pub kem_id: HpkeKemId,
    pub kdf_id: HpkeKdfId,
    pub aead_id: HpkeAeadId,
    pub public_key: Seq<u8>,
}

impl View for HpkeConfig {
    type V = HpkeConfigView;

    open spec fn view(&self) -> HpkeConfigView {
        HpkeConfigView {
            id: self.id,
            kem_id: self.kem_id,
            kdf_id: self.kdf_id,
            aead_id: self.aead_id,
            public_key: self.public_key@,
        }
    }
}

impl DeepView for HpkeConfig {
    type V = HpkeConfigView;

    open spec fn deep_view(&self) -> HpkeConfigView {
        self.view()
    }
}

impl HpkeConfigView {
    pub open spec fn encoding(self) -> Seq<u8> {
        enc_u8(self.id) + self.kem_id.encoding() + self.kdf_id.encoding() + self.aead_id.encoding()
            + enc_prefixed_u16(self.public_key)
    }

    pub open spec fn encodable(self) -> bool {
        fits_u16(self.public_key)
    }

    pub open spec fn wf(self) -> bool {
        self.encodable() && self.kem_id.wf() && self.kdf_id.wf() && self.aead_id.wf()
    }

    pub open spec fn dec(s: Seq<u8>) -> Result<(HpkeConfigView, Seq<u8>), CodecError> {
        match dec_u8(s) {
            Err(e) => Err(e),
            Ok((id, s)) => match HpkeKemId::dec(s) {
                Err(e) => Err(e),
                Ok((kem_id, s)) => match HpkeKdfId::dec(s) {
                    Err(e) => Err(e),
                    Ok((kdf_id, s)) => match HpkeAeadId::dec(s) {
                        Err(e) => Err(e),
                        Ok((aead_id, s)) => match dec_prefixed_u16(s) {
                            Err(e) => Err(e),
                            Ok((public_key, s)) => Ok(
                                (HpkeConfigView { id, kem_id, kdf_id, aead_id, public_key }, s),
                            ),
                        },
                    },
                },
            },
        }
    }

    /// Decoding inverts encoding on every well-formed configuration.
    pub proof fn lemma_round_trip(t: HpkeConfigView, rest: Seq<u8>)
        requires
            t.wf(),
        ensures
            Self::dec(t.encoding() + rest) == Ok::<_, CodecError>((t, rest)),
            t.encoding().len() >= 1,
    {
        let s4 = enc_prefixed_u16(t.public_key) + rest;
        let s3 = t.aead_id.encoding() + s4;
        let s2 = t.kdf_id.encoding() + s3;
        let s1 = t.kem_id.encoding() + s2;
        crate::codec::lemma_concat6(
            enc_u8(t.id),
            t.kem_id.encoding(),
            t.kdf_id.encoding(),
            t.aead_id.encoding(),
            enc_prefixed_u16(t.public_key),
            rest,
        );
        lemma_u8_round_trip(t.id, s1);
        HpkeKemId::lemma_round_trip(t.kem_id, s2);
        HpkeKdfId::lemma_round_trip(t.kdf_id, s3);
        HpkeAeadId::lemma_round_trip(t.aead_id, s4);
        lemma_prefixed_u16_round_trip(t.public_key, rest);
    }

    /// Whatever decodes was the canonical encoding of what came out.
    pub proof fn lemma_canonical(s: Seq<u8>)
        ensures
            Self::dec(s) matches Ok((t, rest)) ==> t.wf() && t.encoding() + rest == s,
    {
        if Self::dec(s) is Ok {
            lemma_u8_canonical(s);
            let (id, s1) = dec_u8(s)->Ok_0;
            HpkeKemId::lemma_canonical(s1);
            let (kem_id, s2) = HpkeKemId::dec(s1)->Ok_0;
            HpkeKdfId::lemma_canonical(s2);
            let (kdf_id, s3) = HpkeKdfId::dec(s2)->Ok_0;
            HpkeAeadId::lemma_canonical(s3);
            let (aead_id, s4) = HpkeAeadId::dec(s3)->Ok_0;
            lemma_prefixed_u16_canonical(s4);
            let (public_key, rest) = dec_prefixed_u16(s4)->Ok_0;
            crate::codec::lemma_concat6(
                enc_u8(id),
                kem_id.encoding(),
                kdf_id.encoding(),
                aead_id.encoding(),
                enc_prefixed_u16(public_key),
                rest,
            );
        }
    }

    /// What the decoder reads does not change when more input follows.
    pub proof fn lemma_prefix(s: Seq<u8>, extra: Seq<u8>)
        ensures
            Self::dec(s) matches Ok((t, rest)) ==> Self::dec(s + extra) == Ok::<_, CodecError>(
                (t, rest + extra),
            ),
    {
        lemma_u8_prefix(s, extra);
        if dec_u8(s) is Ok {
            let (id, s1) = dec_u8(s)->Ok_0;
            HpkeKemId::lemma_prefix(s1, extra);
            if HpkeKemId::dec(s1) is Ok {
                let (kem_id, s2) = HpkeKemId::dec(s1)->Ok_0;
                HpkeKdfId::lemma_prefix(s2, extra);
                if HpkeKdfId::dec(s2) is Ok {
                    let (kdf_id, s3) = HpkeKdfId::dec(s2)->Ok_0;
                    HpkeAeadId::lemma_prefix(s3, extra);
                    if HpkeAeadId::dec(s3) is Ok {
                        let (aead_id, s4) = HpkeAeadId::dec(s3)->Ok_0;
                        lemma_prefixed_u16_prefix(s4, extra);
                    }
                }
            }
        }
    }

    /// A buffer truncated by at least one byte anywhere inside a well-formed
    /// configuration fails to decode in full.
    pub proof fn lemma_truncation(t: HpkeConfigView, k: int)
        requires
            t.wf(),
            0 <= k < t.encoding().len(),
        ensures
            dec_full(Self::dec(t.encoding().take(k))) is Err,
    {
        let enc = t.encoding();
        let p = enc.take(k);
        if Self::dec(p) is Ok {
            let (u, rest) = Self::dec(p)->Ok_0;
            if rest.len() == 0 {
                Self::lemma_prefix(p, enc.skip(k));
                crate::codec::lemma_take_skip(enc, k);
                Self::lemma_round_trip(t, Seq::empty());
                crate::codec::lemma_add_empty_right(enc);
                crate::codec::lemma_add_empty_left(enc.skip(k));
                assert(false);
            }
        }
    }
}

impl HpkeConfig {
    pub fn encode(&self, bytes: &mut Vec<u8>) -> (r: Result<(), CodecError>)
        ensures
            r is Ok <==> self@.encodable(),
            r is Ok ==> final(bytes)@ == old(bytes)@ + self@.encoding(),
    {
        encode_u8(bytes, self.id);
        self.kem_id.encode(bytes)?;
        self.kdf_id.encode(bytes)?;
        self.aead_id.encode(bytes)?;
        encode_u16_bytes(bytes, self.public_key.as_slice())?;
        proof {
            assert(bytes@ =~= old(bytes)@ + self@.encoding());
        }
        Ok(())
    }

    pub fn decode(bytes: &[u8], pos: &mut usize) -> (r: Result<HpkeConfig, CodecError>)
        requires
            *old(pos) <= bytes@.len(),
        ensures
            *old(pos) <= *final(pos) <= bytes@.len(),
            match r {
                Ok(t) => HpkeConfigView::dec(bytes@.skip(*old(pos) as int)) == Ok::<_, CodecError>(
                    (t@, bytes@.skip(*final(pos) as int)),
                ),
                Err(e) => HpkeConfigView::dec(bytes@.skip(*old(pos) as int)) == Err::<
                    (HpkeConfigView, Seq<u8>),
                    CodecError,
                >(e),
            },
    {
        let id = decode_u8(bytes, pos)?;
        let kem_id = HpkeKemId::decode(bytes, pos)?;
        let kdf_id = HpkeKdfId::decode(bytes, pos)?;
        let aead_id = HpkeAeadId::decode(bytes, pos)?;
        let public_key = decode_u16_bytes(bytes, pos)?;
        Ok(HpkeConfig { id, kem_id, kdf_id, aead_id, public_key })
    }

    /// Encode to a fresh buffer.
    pub fn get_encoded(&self) -> (r: Result<Vec<u8>, CodecError>)
        ensures
            r is Ok <==> self@.encodable(),
            r matches Ok(v) ==> v@ == self@.encoding(),
    {
        let mut bytes: Vec<u8> = Vec::new();
        self.encode(&mut bytes)?;
        Ok(bytes)
    }

    /// Decode a buffer in full; leftover bytes are refused.
    pub fn get_decoded(data: &[u8]) -> (r: Result<HpkeConfig, CodecError>)
        ensures
            match r {
                Ok(t) => dec_full(HpkeConfigView::dec(data@)) == Ok::<HpkeConfigView, CodecError>(
                    t@,
                ),
                Err(e) => dec_full(HpkeConfigView::dec(data@)) == Err::<HpkeConfigView, CodecError>(
                    e,
                ),
            },
    {
        let mut pos: usize = 0;
        proof {
            assert(data@.skip(0) =~= data@);
        }
        let t = Self::decode(data, &mut pos)?;
        if pos != data.len() {
            return Err(CodecError::UnexpectedValue);
        }
        proof {
            assert(data@.skip(pos as int) =~= Seq::<u8>::empty());
        }
        Ok(t)
    }
}

/// An HPKE ciphertext. In the DAP protocol, input shares and aggregate shares
/// are encrypted to the intended recipient.
#[derive(Clone, Debug, PartialEq, Eq)]
pub struct HpkeCiphertext {
    pub config_id: u8,
    pub enc: Vec<u8>,
    pub payload: Vec<u8>,
}

/// The mathematical value of an [`HpkeCiphertext`].
pub struct HpkeCiphertextView {
    pub config_id: u8,
    pub enc: Seq<u8>,
    pub payload: Seq<u8>,
}

impl View for HpkeCiphertext {
    type V = HpkeCiphertextView;

    open spec fn view(&self) -> HpkeCiphertextView {
        HpkeCiphertextView { config_id: self.config_id, enc: self.enc@, payload: self.payload@ }
    }
}

impl DeepView for HpkeCiphertext {
    type V = HpkeCiphertextView;

    open spec fn deep_view(&self) -> HpkeCiphertextView {
        self.view()
    }
}

impl WireValue for HpkeCiphertextView {
    open spec fn encoding(self) -> Seq<u8> {
        enc_u8(self.config_id) + enc_prefixed_u16(self.enc) + enc_prefixed_u32(self.payload)
    }

    open spec fn encodable(self) -> bool {
        fits_u16(self.enc) && fits_u32(self.payload)
    }

    open spec fn wf(self) -> bool {
        fits_u16(self.enc) && fits_u32(self.payload)
    }

    open spec fn dec(s: Seq<u8>) -> Result<(HpkeCiphertextView, Seq<u8>), CodecError> {
        match dec_u8(s) {
            Err(e) => Err(e),
            Ok((config_id, s)) => match dec_prefixed_u16(s) {
                Err(e) => Err(e),
                Ok((enc, s)) => match dec_prefixed_u32(s) {
                    Err(e) => Err(e),
                    Ok((payload, s)) => Ok((HpkeCiphertextView { config_id, enc, payload }, s)),
                },
            },
        }
    }

    proof fn lemma_round_trip(t: HpkeCiphertextView, rest: Seq<u8>) {
        let s2 = enc_prefixed_u32(t.payload) + rest;
        let s1 = enc_prefixed_u16(t.enc) + s2;
        crate::codec::lemma_concat4(
            enc_u8(t.config_id),
            enc_prefixed_u16(t.enc),
            enc_prefixed_u32(t.payload),
            rest,
        );
        lemma_u8_round_trip(t.config_id, s1);
        lemma_prefixed_u16_round_trip(t.enc, s2);
        lemma_prefixed_u32_round_trip(t.payload, rest);
    }

    proof fn lemma_canonical(s: Seq<u8>) {
        if Self::dec(s) is Ok {
            lemma_u8_canonical(s);
            let (config_id, s1) = dec_u8(s)->Ok_0;
            lemma_prefixed_u16_canonical(s1);
            let (enc, s2) = dec_prefixed_u16(s1)->Ok_0;
            lemma_prefixed_u32_canonical(s2);
            let (payload, rest) = dec_prefixed_u32(s2)->Ok_0;
            crate::codec::lemma_concat4(
                enc_u8(config_id),
                enc_prefixed_u16(enc),
                enc_prefixed_u32(payload),
                rest,
            );
        }
    }
}

impl HpkeCiphertextView {
    /// What the decoder reads does not change when more input follows.
    pub proof fn lemma_prefix(s: Seq<u8>, extra: Seq<u8>)
        ensures
            Self::dec(s) matches Ok((t, rest)) ==> Self::dec(s + extra) == Ok::<_, CodecError>(
                (t, rest + extra),
            ),
    {
        lemma_u8_prefix(s, extra);
        if dec_u8(s) is Ok {
            let (config_id, s1) = dec_u8(s)->Ok_0;
            lemma_prefixed_u16_prefix(s1, extra);
            if dec_prefixed_u16(s1) is Ok {
                let (enc, s2) = dec_prefixed_u16(s1)->Ok_0;
                lemma_prefixed_u32_prefix(s2, extra);
            }
        }
    }
}

impl HpkeCiphertext {
    pub fn encode(&self, bytes: &mut Vec<u8>) -> (r: Result<(), CodecError>)
        ensures
            r is Ok <==> self@.encodable(),
            r is Ok ==> final(bytes)@ == old(bytes)@ + self@.encoding(),
    {
        encode_u8(bytes, self.config_id);
        encode_u16_bytes(bytes, self.enc.as_slice())?;
        encode_u32_bytes(bytes, self.payload.as_slice())?;
        proof {
            assert(bytes@ =~= old(bytes)@ + self@.encoding());
        }
        Ok(())
    }

    pub fn decode(bytes: &[u8], pos: &mut usize) -> (r: Result<HpkeCiphertext, CodecError>)
        requires
            *old(pos) <= bytes@.len(),
        ensures
            *old(pos) <= *final(pos) <= bytes@.len(),
            match r {
                Ok(t) => HpkeCiphertextView::dec(bytes@.skip(*old(pos) as int)) == Ok::<
                    _,
                    CodecError,
                >((t@, bytes@.skip(*final(pos) as int))),
                Err(e) => HpkeCiphertextView::dec(bytes@.skip(*old(pos) as int)) == Err::<
                    (HpkeCiphertextView, Seq<u8>),
                    CodecError,
                >(e),
            },
    {
        let config_id = decode_u8(bytes, pos)?;
        let enc = decode_u16_bytes(bytes, pos)?;
        let payload = decode_u32_bytes(bytes, pos)?;
        Ok(HpkeCiphertext { config_id, enc, payload })
    }
}

/// Encode each ciphertext of a list in order, with no surrounding prefix.
pub fn encode_ciphertext_items(out: &mut Vec<u8>, items: &Vec<HpkeCiphertext>) -> (r: Result<
    (),
    CodecError,
>)
    ensures
        r is Ok <==> items_encodable(items.deep_view()),
        r is Ok ==> final(out)@ == old(out)@ + items_encoding(items.deep_view()),
{
    let ghost dv = items.deep_view();
    proof {
        assert(dv.take(0) =~= Seq::<HpkeCiphertextView>::empty());
        assert(out@ =~= old(out)@ + items_encoding(dv.take(0)));
    }
    let mut i: usize = 0;
    while i < items.len()
        invariant
            i <= items@.len(),
            dv == items.deep_view(),
            dv.len() == items@.len(),
            forall|j: int| 0 <= j < i ==> (#[trigger] dv[j]).encodable(),
            out@ == old(out)@ + items_encoding(dv.take(i as int)),
        decreases items@.len() - i,
    {
        proof {
            assert(dv[i as int] == items@[i as int]@);
        }
        match items[i].encode(out) {
            Ok(()) => {},
            Err(e) => {
                proof {
                    assert(!(#[trigger] dv[i as int]).encodable());
                }
                return Err(e);
            },
        }
        proof {
            lemma_items_encoding_push(dv.take(i as int), dv[i as int]);
            assert(dv.take(i as int).push(dv[i as int]) =~= dv.take(i as int + 1));
            assert(out@ =~= old(out)@ + items_encoding(dv.take(i as int + 1)));
        }
        i = i + 1;
    }
    proof {
        assert(dv.take(dv.len() as int) =~= dv);
    }
    Ok(())
}

/// Decode ciphertexts until the input is exhausted.
pub fn decode_ciphertext_items(body: &[u8]) -> (r: Result<Vec<HpkeCiphertext>, CodecError>)
    ensures
        match r {
            Ok(items) => dec_items::<HpkeCiphertextView>(body@) == Ok::<_, CodecError>(
                items.deep_view(),
            ),
            Err(e) => dec_items::<HpkeCiphertextView>(body@) == Err::<
                Seq<HpkeCiphertextView>,
                CodecError,
            >(e),
        },
{
    let mut items: Vec<HpkeCiphertext> = Vec::new();
    let mut bpos: usize = 0;
    proof {
        assert(body@.skip(0) =~= body@);
        assert(items.deep_view() =~= Seq::<HpkeCiphertextView>::empty());
        assert(items.deep_view() + Seq::<HpkeCiphertextView>::empty() =~= items.deep_view());
    }
    while bpos < body.len()
        invariant
            bpos <= body@.len(),
            ({
                let d = dec_items::<HpkeCiphertextView>(body@);
                match dec_items::<HpkeCiphertextView>(body@.skip(bpos as int)) {
                    Ok(ts) => d == Ok::<_, CodecError>(items.deep_view() + ts),
                    Err(e) => d == Err::<Seq<HpkeCiphertextView>, CodecError>(e),
                }
            }),
        decreases body@.len() - bpos,
    {
        let prev: usize = bpos;
        let ghost items0 = items.deep_view();
        let item = match HpkeCiphertext::decode(body, &mut bpos) {
            Ok(t) => t,
            Err(e) => {
                return Err(e);
            },
        };
        if bpos <= prev {
            proof {
                assert(body@.skip(bpos as int).len() >= body@.skip(prev as int).len());
            }
            return Err(CodecError::UnexpectedValue);
        }
        items.push(item);
        proof {
            assert(body@.skip(bpos as int).len() < body@.skip(prev as int).len());
            assert(items.deep_view() =~= items0.push(item@));
            if dec_items::<HpkeCiphertextView>(body@.skip(bpos as int)) is Ok {
                let ts = dec_items::<HpkeCiphertextView>(body@.skip(bpos as int))->Ok_0;
                assert(dec_items::<HpkeCiphertextView>(body@.skip(prev as int)) == Ok::<
                    _,
                    CodecError,
                >(seq![item@] + ts));
                assert(items0 + (seq![item@] + ts) =~= items.deep_view() + ts);
            }
        }
    }
    proof {
        assert(body@.skip(bpos as int) =~= Seq::<u8>::empty());
        assert(items.deep_view() + Seq::<HpkeCiphertextView>::empty() =~= items.deep_view());
    }
    Ok(items)
}

/// A list of ciphertexts, its byte length prefixed as a 32-bit integer.
pub open spec fn enc_ciphertext_list_u32(items: Seq<HpkeCiphertextView>) -> Seq<u8> {
    enc_prefixed_u32(items_encoding(items))
}

/// Whether a ciphertext list encodes: every item does, and the total fits.
pub open spec fn ciphertext_list_u32_encodable(items: Seq<HpkeCiphertextView>) -> bool {
    items_encodable(items) && fits_u32(items_encoding(items))
}

/// Read a list of ciphertexts prefixed by its byte length as a 32-bit integer.
pub open spec fn dec_ciphertext_list_u32(s: Seq<u8>) -> Result<
    (Seq<HpkeCiphertextView>, Seq<u8>),
    CodecError,
> {
    match dec_prefixed_u32(s) {
        Err(e) => Err(e),
        Ok((body, rest)) => match dec_items::<HpkeCiphertextView>(body) {
            Err(e) => Err(e),
            Ok(ts) => Ok((ts, rest)),
        },
    }
}

pub proof fn lemma_ciphertext_list_u32_round_trip(items: Seq<HpkeCiphertextView>, rest: Seq<u8>)
    requires
        crate::codec::items_wf(items),
        fits_u32(items_encoding(items)),
    ensures
        dec_ciphertext_list_u32(enc_ciphertext_list_u32(items) + rest) == Ok::<_, CodecError>(
            (items, rest),
        ),
        enc_ciphertext_list_u32(items).len() >= 4,
{
    lemma_prefixed_u32_round_trip(items_encoding(items), rest);
    crate::codec::lemma_items_round_trip::<HpkeCiphertextView>(items);
}

pub proof fn lemma_ciphertext_list_u32_canonical(s: Seq<u8>)
    ensures
        dec_ciphertext_list_u32(s) matches Ok((ts, rest)) ==> crate::codec::items_wf(ts)
            && fits_u32(items_encoding(ts)) && enc_ciphertext_list_u32(ts) + rest == s,
{
    lemma_prefixed_u32_canonical(s);
    if dec_prefixed_u32(s) is Ok {
        let (body, rest) = dec_prefixed_u32(s)->Ok_0;
        crate::codec::lemma_items_canonical::<HpkeCiphertextView>(body);
    }
}

/// What the list decoder reads does not change when more input follows: the
/// byte-length prefix pins the body down.
pub proof fn lemma_ciphertext_list_u32_prefix(s: Seq<u8>, extra: Seq<u8>)
    ensures
        dec_ciphertext_list_u32(s) matches Ok((ts, rest)) ==> dec_ciphertext_list_u32(s + extra)
            == Ok::<_, CodecError>((ts, rest + extra)),
{
    lemma_prefixed_u32_prefix(s, extra);
}

/// Append a list of ciphertexts, its byte length prefixed as a 32-bit integer.
pub fn encode_ciphertext_list_u32(bytes: &mut Vec<u8>, items: &Vec<HpkeCiphertext>) -> (r: Result<
    (),
    CodecError,
>)
    ensures
        r is Ok <==> ciphertext_list_u32_encodable(items.deep_view()),
        r is Ok ==> final(bytes)@ == old(bytes)@ + enc_ciphertext_list_u32(items.deep_view()),
{
    let mut tmp: Vec<u8> = Vec::new();
    encode_ciphertext_items(&mut tmp, items)?;
    encode_u32_bytes(bytes, tmp.as_slice())
}

/// Read a list of ciphertexts prefixed by its byte length as a 32-bit integer.
pub fn decode_ciphertext_list_u32(bytes: &[u8], pos: &mut usize) -> (r: Result<
    Vec<HpkeCiphertext>,
    CodecError,
>)
    requires
        *old(pos) <= bytes@.len(),
    ensures
        *old(pos) <= *final(pos) <= bytes@.len(),
        match r {
            Ok(items) => dec_ciphertext_list_u32(bytes@.skip(*old(pos) as int)) == Ok::<
                _,
                CodecError,
            >((items.deep_view(), bytes@.skip(*final(pos) as int))),
            Err(e) => dec_ciphertext_list_u32(bytes@.skip(*old(pos) as int)) == Err::<
                (Seq<HpkeCiphertextView>, Seq<u8>),
                CodecError,
            >(e),
        },
{
    let body = decode_u32_bytes(bytes, pos)?;
    match decode_ciphertext_items(body.as_slice()) {
        Ok(items) => Ok(items),
        Err(e) => Err(e),
    }
}

/// An HPKE configuration together with the receiver's serialized private key.
#[derive(Clone, Debug, PartialEq, Eq)]
pub struct HpkeReceiverConfig {
    pub config: HpkeConfig,
    pub private_key: Vec<u8>,
}

/// The mathematical value of an [`HpkeReceiverConfig`].
pub struct HpkeReceiverConfigView {
    pub config: HpkeConfigView,
    pub private_key: Seq<u8>,
}

impl View for HpkeReceiverConfig {
    type V = HpkeReceiverConfigView;

    open spec fn view(&self) -> HpkeReceiverConfigView {
        HpkeReceiverConfigView { config: self.config@, private_key: self.private_key@ }
    }
}

impl DeepView for HpkeReceiverConfig {
    type V = HpkeReceiverConfigView;

    open spec fn deep_view(&self) -> HpkeReceiverConfigView {
        self.view()
    }
}

/// An owned copy of a byte string.
pub fn copy_bytes(v: &Vec<u8>) -> (r: Vec<u8>)
    ensures
        r@ == v@,
{
    vstd::slice::slice_to_vec(v.as_slice())
}

impl HpkeConfig {
    /// An owned copy with the same mathematical value.
    pub fn duplicate(&self) -> (r: HpkeConfig)
        ensures
            r@ == self@,
    {
        HpkeConfig {
            id: self.id,
            kem_id: self.kem_id,
            kdf_id: self.kdf_id,
            aead_id: self.aead_id,
            public_key: copy_bytes(&self.public_key),
        }
    }
}

impl HpkeReceiverConfig {
    /// An owned copy with the same mathematical value.
    pub fn duplicate(&self) -> (r: HpkeReceiverConfig)
        ensures
            r@ == self@,
    {
        HpkeReceiverConfig {
            config: self.config.duplicate(),
            private_key: copy_bytes(&self.private_key),
        }
    }
}

/// An owned copy of a list of receiver configurations, with the same
/// mathematical value.
pub fn duplicate_receiver_configs(list: &Vec<HpkeReceiverConfig>) -> (r: Vec<HpkeReceiverConfig>)
    ensures
        r.deep_view() == list.deep_view(),
{
    let mut out: Vec<HpkeReceiverConfig> = Vec::new();
    let mut i: usize = 0;
    while i < list.len()
        invariant
            i <= list@.len(),
            out.deep_view() == list.deep_view().take(i as int),
        decreases list@.len() - i,
    {
        let ghost out0 = out.deep_view();
        out.push(list[i].duplicate());
        proof {
            assert(list.deep_view()[i as int] == list@[i as int]@);
            assert(out.deep_view() =~= out0.push(list@[i as int]@));
            assert(out.deep_view() =~= list.deep_view().take(i as int + 1));
        }
        i = i + 1;
    }
    proof {
        assert(list.deep_view().take(list@.len() as int) =~= list.deep_view());
    }
    out
}

} // verus!
