//! Messages exchanged between the Aggregators while running aggregation jobs.

use vstd::prelude::*;
use crate::codec::{
    CodecError, WireValue, dec_fixed, dec_items, dec_prefixed_u16, dec_prefixed_u32, dec_u16,
    dec_u64, dec_u8, decode_raw, decode_u16, decode_u16_bytes, decode_u32_bytes, decode_u64,
    decode_u8, enc_prefixed_u16, enc_prefixed_u32, enc_u16, enc_u64, enc_u8, encode_u16,
    encode_u16_bytes, encode_u32_bytes, encode_u64, encode_u8, fits_u16, fits_u32, items_encodable,
    items_encoding, items_wf, lemma_concat3, lemma_concat4, lemma_concat6,
    lemma_fixed_canonical, lemma_fixed_round_trip, lemma_items_canonical,
    lemma_items_encoding_push, lemma_items_round_trip, lemma_prefixed_u16_canonical,
    lemma_prefixed_u16_round_trip, lemma_prefixed_u32_canonical, lemma_prefixed_u32_round_trip,
    lemma_u16_canonical, lemma_u16_round_trip, lemma_u64_canonical, lemma_u64_round_trip,
    lemma_u8_canonical, lemma_u8_round_trip,
};
use crate::codec::{
    lemma_fixed_prefix, lemma_prefixed_u16_prefix, lemma_prefixed_u32_prefix, lemma_u16_prefix,
    lemma_u64_prefix,
};
use crate::messages::{
    BatchSelector, Id, Nonce, QueryView, QUERY_TYPE_FIXED_SIZE, QUERY_TYPE_TIME_INTERVAL,
    ReportShare, ReportShareView, id_wf, nonce_wf,
};

verus! {

/// Transition error: the reasons a report is rejected during aggregation. Each
/// has a stable single-byte code, in declaration order from zero.
#[derive(Clone, Copy, Debug, PartialEq, Eq)]
pub enum TransitionFailure {
    BatchCollected,
    ReportReplayed,
    ReportDropped,
    HpkeUnknownConfigId,
    HpkeDecryptError,
    VdafPrepError,
    BatchSaturated,
}

impl View for TransitionFailure {
    type V = TransitionFailure;

    open spec fn view(&self) -> TransitionFailure {
        *self
    }
}

impl DeepView for TransitionFailure {
    type V = TransitionFailure;

    open spec fn deep_view(&self) -> TransitionFailure {
        *self
    }
}

impl TransitionFailure {
    /// The single-byte code of this failure.
    pub open spec fn spec_code(self) -> u8 {
        match self {
            TransitionFailure::BatchCollected => 0,
            TransitionFailure::ReportReplayed => 1,
            TransitionFailure::ReportDropped => 2,
            TransitionFailure::HpkeUnknownConfigId => 3,
            TransitionFailure::HpkeDecryptError => 4,
            TransitionFailure::VdafPrepError => 5,
            TransitionFailure::BatchSaturated => 6,
        }
    }

    /// The failure that a byte decodes to, if any: codes above six have no
    /// meaning.
    pub open spec fn from_code(x: u8) -> Option<TransitionFailure> {
        if x == 0 {
            Some(TransitionFailure::BatchCollected)
        } else if x == 1 {
            Some(TransitionFailure::ReportReplayed)
        } else if x == 2 {
            Some(TransitionFailure::ReportDropped)
        } else if x == 3 {
            Some(TransitionFailure::HpkeUnknownConfigId)
        } else if x == 4 {
            Some(TransitionFailure::HpkeDecryptError)
        } else if x == 5 {
            Some(TransitionFailure::VdafPrepError)
        } else if x == 6 {
            Some(TransitionFailure::BatchSaturated)
        } else {
            None
        }
    }

    /// The single-byte code of this failure.
    pub fn code(&self) -> (r: u8)
        ensures
            r == self.spec_code(),
    {
        match self {
            TransitionFailure::BatchCollected => 0,
            TransitionFailure::ReportReplayed => 1,
            TransitionFailure::ReportDropped => 2,
            TransitionFailure::HpkeUnknownConfigId => 3,
            TransitionFailure::HpkeDecryptError => 4,
            TransitionFailure::VdafPrepError => 5,
            TransitionFailure::BatchSaturated => 6,
        }
    }

    /// The failure named by a byte; codes above six are refused.
    pub fn try_from(v: u8) -> (r: Result<TransitionFailure, CodecError>)
        ensures
            match r {
                Ok(t) => Self::from_code(v) == Some(t),
                Err(e) => Self::from_code(v) is None && e == CodecError::UnexpectedValue,
            },
    {
        if v == 0 {
            Ok(TransitionFailure::BatchCollected)
        } else if v == 1 {
            Ok(TransitionFailure::ReportReplayed)
        } else if v == 2 {
            Ok(TransitionFailure::ReportDropped)
        } else if v == 3 {
            Ok(TransitionFailure::HpkeUnknownConfigId)
        } else if v == 4 {
            Ok(TransitionFailure::HpkeDecryptError)
        } else if v == 5 {
            Ok(TransitionFailure::VdafPrepError)
        } else if v == 6 {
            Ok(TransitionFailure::BatchSaturated)
        } else {
            Err(CodecError::UnexpectedValue)
        }
    }

    /// The failure's name and code, as the error surface prints it.
    pub fn display(&self) -> (r: &'static str)
        ensures
            *self == TransitionFailure::BatchCollected ==> r@ == "batch-collected(0)"@,
            *self == TransitionFailure::ReportReplayed ==> r@ == "report-replayed(1)"@,
            *self == TransitionFailure::ReportDropped ==> r@ == "report-dropped(2)"@,
            *self == TransitionFailure::HpkeUnknownConfigId ==> r@ == "hpke-unknown-config-id(3)"@,
            *self == TransitionFailure::HpkeDecryptError ==> r@ == "hpke-decrypt-error(4)"@,
            *self == TransitionFailure::VdafPrepError ==> r@ == "vdaf-prep-error(5)"@,
            *self == TransitionFailure::BatchSaturated ==> r@ == "batch-saturated(6)"@,
    {
        match self {
            TransitionFailure::BatchCollected => "batch-collected(0)",
            TransitionFailure::ReportReplayed => "report-replayed(1)",
            TransitionFailure::ReportDropped => "report-dropped(2)",
            TransitionFailure::HpkeUnknownConfigId => "hpke-unknown-config-id(3)",
            TransitionFailure::HpkeDecryptError => "hpke-decrypt-error(4)",
            TransitionFailure::VdafPrepError => "vdaf-prep-error(5)",
            TransitionFailure::BatchSaturated => "batch-saturated(6)",
        }
    }

    pub open spec fn encoding(self) -> Seq<u8> {
        enc_u8(self.spec_code())
    }

    pub open spec fn dec(s: Seq<u8>) -> Result<(TransitionFailure, Seq<u8>), CodecError> {
        match dec_u8(s) {
            Err(e) => Err(e),
            Ok((x, rest)) => match Self::from_code(x) {
                Some(t) => Ok((t, rest)),
                None => Err(CodecError::UnexpectedValue),
            },
        }
    }

    /// Decoding inverts encoding on every failure code.
    pub proof fn lemma_round_trip(t: TransitionFailure, rest: Seq<u8>)
        ensures
            Self::dec(t.encoding() + rest) == Ok::<_, CodecError>((t, rest)),
            t.encoding().len() == 1,
    {
        lemma_u8_round_trip(t.spec_code(), rest);
    }

    /// Whatever decodes was the canonical encoding of what came out.
    pub proof fn lemma_canonical(s: Seq<u8>)
        ensures
            Self::dec(s) matches Ok((t, rest)) ==> t.encoding() + rest == s && rest.len() == s.len()
                - 1,
    {
        lemma_u8_canonical(s);
    }

    pub fn encode(&self, bytes: &mut Vec<u8>) -> (r: Result<(), CodecError>)
        ensures
            r is Ok,
            final(bytes)@ == old(bytes)@ + self.encoding(),
    {
        encode_u8(bytes, self.code());
        Ok(())
    }

    pub fn decode(bytes: &[u8], pos: &mut usize) -> (r: Result<TransitionFailure, CodecError>)
        requires
            *old(pos) <= bytes@.len(),
        ensures
            *old(pos) <= *final(pos) <= bytes@.len(),
            match r {
                Ok(t) => Self::dec(bytes@.skip(*old(pos) as int)) == Ok::<_, CodecError>(
                    (t, bytes@.skip(*final(pos) as int)),
                ),
                Err(e) => Self::dec(bytes@.skip(*old(pos) as int)) == Err::<
                    (TransitionFailure, Seq<u8>),
                    CodecError,
                >(e),
            },
    {
        let x = decode_u8(bytes, pos)?;
        Self::try_from(x)
    }
}

/// Transition message variant: what one report does in one round.
#[derive(Clone, Debug, PartialEq, Eq)]
pub enum TransitionVar {
    Continued(Vec<u8>),
    Finished,
    Failed(TransitionFailure),
}

/// The mathematical value of a [`TransitionVar`].
pub enum TransitionVarView {
    Continued(Seq<u8>),
    Finished,
    Failed(TransitionFailure),
}

impl View for TransitionVar {
    type V = TransitionVarView;

    open spec fn view(&self) -> TransitionVarView {
        match self {
            TransitionVar::Continued(m) => TransitionVarView::Continued(m@),
            TransitionVar::Finished => TransitionVarView::Finished,
            TransitionVar::Failed(f) => TransitionVarView::Failed(*f),
        }
    }
}

impl DeepView for TransitionVar {
    type V = TransitionVarView;

    open spec fn deep_view(&self) -> TransitionVarView {
        self.view()
    }
}

impl TransitionVarView {
    pub open spec fn encoding(self) -> Seq<u8> {
        match self {
            TransitionVarView::Continued(m) => enc_u8(0) + enc_prefixed_u32(m),
            TransitionVarView::Finished => enc_u8(1),
            TransitionVarView::Failed(f) => enc_u8(2) + f.encoding(),
        }
    }

    pub open spec fn encodable(self) -> bool {
        match self {
            TransitionVarView::Continued(m) => fits_u32(m),
            _ => true,
        }
    }

    pub open spec fn wf(self) -> bool {
        self.encodable()
    }

    pub open spec fn dec(s: Seq<u8>) -> Result<(TransitionVarView, Seq<u8>), CodecError> {
        match dec_u8(s) {
            Err(e) => Err(e),
            Ok((tag, s)) => if tag == 0 {
                match dec_prefixed_u32(s) {
                    Err(e) => Err(e),
                    Ok((m, s)) => Ok((TransitionVarView::Continued(m), s)),
                }
            } else if tag == 1 {
                Ok((TransitionVarView::Finished, s))
            } else if tag == 2 {
                match TransitionFailure::dec(s) {
                    Err(e) => Err(e),
                    Ok((f, s)) => Ok((TransitionVarView::Failed(f), s)),
                }
            } else {
                Err(CodecError::UnexpectedValue)
            },
        }
    }

    /// Decoding inverts encoding on every well-formed variant.
    pub proof fn lemma_round_trip(t: TransitionVarView, rest: Seq<u8>)
        requires
            t.wf(),
        ensures
            Self::dec(t.encoding() + rest) == Ok::<_, CodecError>((t, rest)),
            t.encoding().len() >= 1,
    {
        match t {
            TransitionVarView::Continued(m) => {
                lemma_concat3(enc_u8(0), enc_prefixed_u32(m), rest);
                lemma_u8_round_trip(0, enc_prefixed_u32(m) + rest);
                lemma_prefixed_u32_round_trip(m, rest);
            },
            TransitionVarView::Finished => {
                lemma_u8_round_trip(1, rest);
            },
            TransitionVarView::Failed(f) => {
                lemma_concat3(enc_u8(2), f.encoding(), rest);
                lemma_u8_round_trip(2, f.encoding() + rest);
                TransitionFailure::lemma_round_trip(f, rest);
            },
        }
    }

    /// Whatever decodes was the canonical encoding of what came out.
    pub proof fn lemma_canonical(s: Seq<u8>)
        ensures
            Self::dec(s) matches Ok((t, rest)) ==> t.wf() && t.encoding() + rest == s && rest.len()
                < s.len(),
    {
        if dec_u8(s) is Ok {
            lemma_u8_canonical(s);
            let (tag, s1) = dec_u8(s)->Ok_0;
            if tag == 0 {
                lemma_prefixed_u32_canonical(s1);
                if dec_prefixed_u32(s1) is Ok {
                    let (m, rest) = dec_prefixed_u32(s1)->Ok_0;
                    lemma_concat3(enc_u8(0), enc_prefixed_u32(m), rest);
                }
            } else if tag == 2 {
                TransitionFailure::lemma_canonical(s1);
                if TransitionFailure::dec(s1) is Ok {
                    let (f, rest) = TransitionFailure::dec(s1)->Ok_0;
                    lemma_concat3(enc_u8(2), f.encoding(), rest);
                }
            }
        }
    }
}

impl TransitionVar {
    pub fn encode(&self, bytes: &mut Vec<u8>) -> (r: Result<(), CodecError>)
        ensures
            r is Ok <==> self@.encodable(),
            r is Ok ==> final(bytes)@ == old(bytes)@ + self@.encoding(),
    {
        match self {
            TransitionVar::Continued(m) => {
                encode_u8(bytes, 0);
                encode_u32_bytes(bytes, m.as_slice())?;
            },
            TransitionVar::Finished => {
                encode_u8(bytes, 1);
            },
            TransitionVar::Failed(f) => {
                encode_u8(bytes, 2);
                f.encode(bytes)?;
            },
        }
        proof {
            assert(bytes@ =~= old(bytes)@ + self@.encoding());
        }
        Ok(())
    }

    pub fn decode(bytes: &[u8], pos: &mut usize) -> (r: Result<TransitionVar, CodecError>)
        requires
            *old(pos) <= bytes@.len(),
        ensures
            *old(pos) <= *final(pos) <= bytes@.len(),
            match r {
                Ok(t) => TransitionVarView::dec(bytes@.skip(*old(pos) as int)) == Ok::<
                    _,
                    CodecError,
                >((t@, bytes@.skip(*final(pos) as int))),
                Err(e) => TransitionVarView::dec(bytes@.skip(*old(pos) as int)) == Err::<
                    (TransitionVarView, Seq<u8>),
                    CodecError,
                >(e),
            },
    {
        let tag = decode_u8(bytes, pos)?;
        if tag == 0 {
            let m = decode_u32_bytes(bytes, pos)?;
            Ok(TransitionVar::Continued(m))
        } else if tag == 1 {
            Ok(TransitionVar::Finished)
        } else if tag == 2 {
            let f = TransitionFailure::decode(bytes, pos)?;
            Ok(TransitionVar::Failed(f))
        } else {
            Err(CodecError::UnexpectedValue)
        }
    }
}

/// A transition: one report's progress, keyed by its nonce.
#[derive(Clone, Debug, PartialEq, Eq)]
pub struct Transition {
    pub nonce: Nonce,
    pub var: TransitionVar,
}

/// The mathematical value of a [`Transition`].
pub struct TransitionView {
    pub nonce: Seq<u8>,
    pub var: TransitionVarView,
}

impl View for Transition {
    type V = TransitionView;

    open spec fn view(&self) -> TransitionView {
        TransitionView { nonce: self.nonce@, var: self.var@ }
    }
}

impl DeepView for Transition {
    type V = TransitionView;

    open spec fn deep_view(&self) -> TransitionView {
        self.view()
    }
}

impl WireValue for TransitionView {
    open spec fn encoding(self) -> Seq<u8> {
        self.nonce + self.var.encoding()
    }

    open spec fn encodable(self) -> bool {
        self.var.encodable()
    }

    open spec fn wf(self) -> bool {
        nonce_wf(self.nonce) && self.var.wf()
    }

    open spec fn dec(s: Seq<u8>) -> Result<(TransitionView, Seq<u8>), CodecError> {
        match dec_fixed(s, 16) {
            Err(e) => Err(e),
            Ok((nonce, s)) => match TransitionVarView::dec(s) {
                Err(e) => Err(e),
                Ok((var, s)) => Ok((TransitionView { nonce, var }, s)),
            },
        }
    }

    proof fn lemma_round_trip(t: TransitionView, rest: Seq<u8>) {
        lemma_concat3(t.nonce, t.var.encoding(), rest);
        assert(t.nonce.len() == 16);
        lemma_fixed_round_trip(t.nonce, t.var.encoding() + rest);
        TransitionVarView::lemma_round_trip(t.var, rest);
    }

    proof fn lemma_canonical(s: Seq<u8>) {
        if Self::dec(s) is Ok {
            lemma_fixed_canonical(s, 16);
            let (nonce, s1) = dec_fixed(s, 16)->Ok_0;
            TransitionVarView::lemma_canonical(s1);
            let (var, rest) = TransitionVarView::dec(s1)->Ok_0;
            lemma_concat3(nonce, var.encoding(), rest);
        }
    }
}

impl Transition {
    pub fn encode(&self, bytes: &mut Vec<u8>) -> (r: Result<(), CodecError>)
        ensures
            r is Ok <==> self@.encodable(),
            r is Ok ==> final(bytes)@ == old(bytes)@ + self@.encoding(),
    {
        self.nonce.encode(bytes)?;
        self.var.encode(bytes)?;
        proof {
            assert(bytes@ =~= old(bytes)@ + self@.encoding());
        }
        Ok(())
    }

    pub fn decode(bytes: &[u8], pos: &mut usize) -> (r: Result<Transition, CodecError>)
        requires
            *old(pos) <= bytes@.len(),
        ensures
            *old(pos) <= *final(pos) <= bytes@.len(),
            match r {
                Ok(t) => TransitionView::dec(bytes@.skip(*old(pos) as int)) == Ok::<_, CodecError>(
                    (t@, bytes@.skip(*final(pos) as int)),
                ),
                Err(e) => TransitionView::dec(bytes@.skip(*old(pos) as int)) == Err::<
                    (TransitionView, Seq<u8>),
                    CodecError,
                >(e),
            },
    {
        let nonce = Nonce::decode(bytes, pos)?;
        let var = TransitionVar::decode(bytes, pos)?;
        Ok(Transition { nonce, var })
    }
}

/// A list of transitions, its byte length prefixed as a 32-bit integer.
pub open spec fn enc_transition_list_u32(items: Seq<TransitionView>) -> Seq<u8> {
    enc_prefixed_u32(items_encoding(items))
}

/// Whether a transition list encodes: every item does, and the total fits.
pub open spec fn transition_list_u32_encodable(items: Seq<TransitionView>) -> bool {
    items_encodable(items) && fits_u32(items_encoding(items))
}

/// Read a list of transitions prefixed by its byte length as a 32-bit integer.
pub open spec fn dec_transition_list_u32(s: Seq<u8>) -> Result<
    (Seq<TransitionView>, Seq<u8>),
    CodecError,
> {
    match dec_prefixed_u32(s) {
        Err(e) => Err(e),
        Ok((body, rest)) => match dec_items::<TransitionView>(body) {
            Err(e) => Err(e),
            Ok(ts) => Ok((ts, rest)),
        },
    }
}

pub proof fn lemma_transition_list_u32_round_trip(items: Seq<TransitionView>, rest: Seq<u8>)
    requires
        items_wf(items),
        fits_u32(items_encoding(items)),
    ensures
        dec_transition_list_u32(enc_transition_list_u32(items) + rest) == Ok::<_, CodecError>(
            (items, rest),
        ),
        enc_transition_list_u32(items).len() >= 4,
{
    lemma_prefixed_u32_round_trip(items_encoding(items), rest);
    lemma_items_round_trip::<TransitionView>(items);
}

pub proof fn lemma_transition_list_u32_canonical(s: Seq<u8>)
    ensures
        dec_transition_list_u32(s) matches Ok((ts, rest)) ==> items_wf(ts) && fits_u32(
            items_encoding(ts),
        ) && enc_transition_list_u32(ts) + rest == s,
{
    lemma_prefixed_u32_canonical(s);
    if dec_prefixed_u32(s) is Ok {
        let (body, rest) = dec_prefixed_u32(s)->Ok_0;
        lemma_items_canonical::<TransitionView>(body);
    }
}

/// What the list decoder reads does not change when more input follows: the
/// byte-length prefix pins the body down.
pub proof fn lemma_transition_list_u32_prefix(s: Seq<u8>, extra: Seq<u8>)
    ensures
        dec_transition_list_u32(s) matches Ok((ts, rest)) ==> dec_transition_list_u32(s + extra)
            == Ok::<_, CodecError>((ts, rest + extra)),
{
    lemma_prefixed_u32_prefix(s, extra);
}

/// Encode each transition of a list in order, with no surrounding prefix.
fn encode_transition_items(out: &mut Vec<u8>, items: &Vec<Transition>) -> (r: Result<
    (),
    CodecError,
>)
    ensures
        r is Ok <==> items_encodable(items.deep_view()),
        r is Ok ==> final(out)@ == old(out)@ + items_encoding(items.deep_view()),
{
    let ghost dv = items.deep_view();
    proof {
        assert(dv.take(0) =~= Seq::<TransitionView>::empty());
        assert(out@ =~= old(out)@ + items_encoding(dv.take(0)));
    }
    let mut i: usize = 0;
    while i < items.len()
        invariant
            i <= items@.len(),
            dv == items.deep_view(),
            dv.len() == items@.len(),
            forall|j: int| 0 <= j < i ==> (#[trigger] dv[j]).encodable(),
            out@ == old(out)@ + items_encoding(dv.take(i as int)),
        decreases items@.len() - i,
    {
        proof {
            assert(dv[i as int] == items@[i as int]@);
        }
        match items[i].encode(out) {
            Ok(()) => {},
            Err(e) => {
                proof {
                    assert(!(#[trigger] dv[i as int]).encodable());
                }
                return Err(e);
            },
        }
        proof {
            lemma_items_encoding_push(dv.take(i as int), dv[i as int]);
            assert(dv.take(i as int).push(dv[i as int]) =~= dv.take(i as int + 1));
            assert(out@ =~= old(out)@ + items_encoding(dv.take(i as int + 1)));
        }
        i = i + 1;
    }
    proof {
        assert(dv.take(dv.len() as int) =~= dv);
    }
    Ok(())
}

/// Decode transitions until the input is exhausted.
fn decode_transition_items(body: &[u8]) -> (r: Result<Vec<Transition>, CodecError>)
    ensures
        match r {
            Ok(items) => dec_items::<TransitionView>(body@) == Ok::<_, CodecError>(
                items.deep_view(),
            ),
            Err(e) => dec_items::<TransitionView>(body@) == Err::<Seq<TransitionView>, CodecError>(
                e,
            ),
        },
{
    let mut items: Vec<Transition> = Vec::new();
    let mut bpos: usize = 0;
    proof {
        assert(body@.skip(0) =~= body@);
        assert(items.deep_view() =~= Seq::<TransitionView>::empty());
        assert(items.deep_view() + Seq::<TransitionView>::empty() =~= items.deep_view());
    }
    while bpos < body.len()
        invariant
            bpos <= body@.len(),
            ({
                let d = dec_items::<TransitionView>(body@);
                match dec_items::<TransitionView>(body@.skip(bpos as int)) {
                    Ok(ts) => d == Ok::<_, CodecError>(items.deep_view() + ts),
                    Err(e) => d == Err::<Seq<TransitionView>, CodecError>(e),
                }
            }),
        decreases body@.len() - bpos,
    {
        let prev: usize = bpos;
        let ghost items0 = items.deep_view();
        let item = match Transition::decode(body, &mut bpos) {
            Ok(t) => t,
            Err(e) => {
                return Err(e);
            },
        };
        if bpos <= prev {
            proof {
                assert(body@.skip(bpos as int).len() >= body@.skip(prev as int).len());
            }
            return Err(CodecError::UnexpectedValue);
        }
        items.push(item);
        proof {
            assert(body@.skip(bpos as int).len() < body@.skip(prev as int).len());
            assert(items.deep_view() =~= items0.push(item@));
            if dec_items::<TransitionView>(body@.skip(bpos as int)) is Ok {
                let ts = dec_items::<TransitionView>(body@.skip(bpos as int))->Ok_0;
                assert(dec_items::<TransitionView>(body@.skip(prev as int)) == Ok::<_, CodecError>(
                    seq![item@] + ts,
                ));
                assert(items0 + (seq![item@] + ts) =~= items.deep_view() + ts);
            }
        }
    }
    proof {
        assert(body@.skip(bpos as int) =~= Seq::<u8>::empty());
        assert(items.deep_view() + Seq::<TransitionView>::empty() =~= items.deep_view());
    }
    Ok(items)
}

/// Append a list of transitions, its byte length prefixed as a 32-bit integer.
pub fn encode_transition_list_u32(bytes: &mut Vec<u8>, items: &Vec<Transition>) -> (r: Result<
    (),
    CodecError,
>)
    ensures
        r is Ok <==> transition_list_u32_encodable(items.deep_view()),
        r is Ok ==> final(bytes)@ == old(bytes)@ + enc_transition_list_u32(items.deep_view()),
{
    let mut tmp: Vec<u8> = Vec::new();
    encode_transition_items(&mut tmp, items)?;
    encode_u32_bytes(bytes, tmp.as_slice())
}

/// Read a list of transitions prefixed by its byte length as a 32-bit integer.
pub fn decode_transition_list_u32(bytes: &[u8], pos: &mut usize) -> (r: Result<
    Vec<Transition>,
    CodecError,
>)
    requires
        *old(pos) <= bytes@.len(),
    ensures
        *old(pos) <= *final(pos) <= bytes@.len(),
        match r {
            Ok(items) => dec_transition_list_u32(bytes@.skip(*old(pos) as int)) == Ok::<
                _,
                CodecError,
            >((items.deep_view(), bytes@.skip(*final(pos) as int))),
            Err(e) => dec_transition_list_u32(bytes@.skip(*old(pos) as int)) == Err::<
                (Seq<TransitionView>, Seq<u8>),
                CodecError,
            >(e),
        },
{
    let body = decode_u32_bytes(bytes, pos)?;
    match decode_transition_items(body.as_slice()) {
        Ok(items) => Ok(items),
        Err(e) => Err(e),
    }
}

/// A list of report shares, its byte length prefixed as a 32-bit integer.
pub open spec fn enc_report_share_list_u32(items: Seq<ReportShareView>) -> Seq<u8> {
    enc_prefixed_u32(items_encoding(items))
}

/// Whether a report-share list encodes: every item does, and the total fits.
pub open spec fn report_share_list_u32_encodable(items: Seq<ReportShareView>) -> bool {
    items_encodable(items) && fits_u32(items_encoding(items))
}

/// Read a list of report shares prefixed by its byte length as a 32-bit
/// integer.
pub open spec fn dec_report_share_list_u32(s: Seq<u8>) -> Result<
    (Seq<ReportShareView>, Seq<u8>),
    CodecError,
> {
    match dec_prefixed_u32(s) {
        Err(e) => Err(e),
        Ok((body, rest)) => match dec_items::<ReportShareView>(body) {
            Err(e) => Err(e),
            Ok(ts) => Ok((ts, rest)),
        },
    }
}

pub proof fn lemma_report_share_list_u32_round_trip(items: Seq<ReportShareView>, rest: Seq<u8>)
    requires
        items_wf(items),
        fits_u32(items_encoding(items)),
    ensures
        dec_report_share_list_u32(enc_report_share_list_u32(items) + rest) == Ok::<_, CodecError>(
            (items, rest),
        ),
        enc_report_share_list_u32(items).len() >= 4,
{
    lemma_prefixed_u32_round_trip(items_encoding(items), rest);
    lemma_items_round_trip::<ReportShareView>(items);
}

pub proof fn lemma_report_share_list_u32_canonical(s: Seq<u8>)
    ensures
        dec_report_share_list_u32(s) matches Ok((ts, rest)) ==> items_wf(ts) && fits_u32(
            items_encoding(ts),
        ) && enc_report_share_list_u32(ts) + rest == s,
{
    lemma_prefixed_u32_canonical(s);
    if dec_prefixed_u32(s) is Ok {
        let (body, rest) = dec_prefixed_u32(s)->Ok_0;
        lemma_items_canonical::<ReportShareView>(body);
    }
}

/// What the list decoder reads does not change when more input follows: the
/// byte-length prefix pins the body down.
pub proof fn lemma_report_share_list_u32_prefix(s: Seq<u8>, extra: Seq<u8>)
    ensures
        dec_report_share_list_u32(s) matches Ok((ts, rest)) ==> dec_report_share_list_u32(
            s + extra,
        ) == Ok::<_, CodecError>((ts, rest + extra)),
{
    lemma_prefixed_u32_prefix(s, extra);
}

/// Encode each report share of a list in order, with no surrounding prefix.
fn encode_report_share_items(out: &mut Vec<u8>, items: &Vec<ReportShare>) -> (r: Result<
    (),
    CodecError,
>)
    ensures
        r is Ok <==> items_encodable(items.deep_view()),
        r is Ok ==> final(out)@ == old(out)@ + items_encoding(items.deep_view()),
{
    let ghost dv = items.deep_view();
    proof {
        assert(dv.take(0) =~= Seq::<ReportShareView>::empty());
        assert(out@ =~= old(out)@ + items_encoding(dv.take(0)));
    }
    let mut i: usize = 0;
    while i < items.len()
        invariant
            i <= items@.len(),
            dv == items.deep_view(),
            dv.len() == items@.len(),
            forall|j: int| 0 <= j < i ==> (#[trigger] dv[j]).encodable(),
            out@ == old(out)@ + items_encoding(dv.take(i as int)),
        decreases items@.len() - i,
    {
        proof {
            assert(dv[i as int] == items@[i as int]@);
        }
        match items[i].encode(out) {
            Ok(()) => {},
            Err(e) => {
                proof {
                    assert(!(#[trigger] dv[i as int]).encodable());
                }
                return Err(e);
            },
        }
        proof {
            lemma_items_encoding_push(dv.take(i as int), dv[i as int]);
            assert(dv.take(i as int).push(dv[i as int]) =~= dv.take(i as int + 1));
            assert(out@ =~= old(out)@ + items_encoding(dv.take(i as int + 1)));
        }
        i = i + 1;
    }
    proof {
        assert(dv.take(dv.len() as int) =~= dv);
    }
    Ok(())
}

/// Decode report shares until the input is exhausted.
#[verifier::rlimit(100)]
fn decode_report_share_items(body: &[u8]) -> (r: Result<Vec<ReportShare>, CodecError>)
    ensures
        match r {
            Ok(items) => dec_items::<ReportShareView>(body@) == Ok::<_, CodecError>(
                items.deep_view(),
            ),
            Err(e) => dec_items::<ReportShareView>(body@) == Err::<
                Seq<ReportShareView>,
                CodecError,
            >(e),
        },
{
    let mut items: Vec<ReportShare> = Vec::new();
    let mut bpos: usize = 0;
    proof {
        assert(body@.skip(0) =~= body@);
        assert(items.deep_view() =~= Seq::<ReportShareView>::empty());
        assert(items.deep_view() + Seq::<ReportShareView>::empty() =~= items.deep_view());
    }
    while bpos < body.len()
        invariant
            bpos <= body@.len(),
            ({
                let d = dec_items::<ReportShareView>(body@);
                match dec_items::<ReportShareView>(body@.skip(bpos as int)) {
                    Ok(ts) => d == Ok::<_, CodecError>(items.deep_view() + ts),
                    Err(e) => d == Err::<Seq<ReportShareView>, CodecError>(e),
                }
            }),
        decreases body@.len() - bpos,
    {
        let prev: usize = bpos;
        let ghost items0 = items.deep_view();
        let item = match ReportShare::decode(body, &mut bpos) {
            Ok(t) => t,
            Err(e) => {
                return Err(e);
            },
        };
        if bpos <= prev {
            proof {
                assert(body@.skip(bpos as int).len() >= body@.skip(prev as int).len());
            }
            return Err(CodecError::UnexpectedValue);
        }
        items.push(item);
        proof {
            assert(body@.skip(bpos as int).len() < body@.skip(prev as int).len());
            assert(items.deep_view() =~= items0.push(item@));
            if dec_items::<ReportShareView>(body@.skip(bpos as int)) is Ok {
                let ts = dec_items::<ReportShareView>(body@.skip(bpos as int))->Ok_0;
                assert(dec_items::<ReportShareView>(body@.skip(prev as int)) == Ok::<_, CodecError>(
                    seq![item@] + ts,
                ));
                assert(items0 + (seq![item@] + ts) =~= items.deep_view() + ts);
            }
        }
    }
    proof {
        assert(body@.skip(bpos as int) =~= Seq::<u8>::empty());
        assert(items.deep_view() + Seq::<ReportShareView>::empty() =~= items.deep_view());
    }
    Ok(items)
}

/// Append a list of report shares, its byte length prefixed as a 32-bit
/// integer.
pub fn encode_report_share_list_u32(bytes: &mut Vec<u8>, items: &Vec<ReportShare>) -> (r: Result<
    (),
    CodecError,
>)
    ensures
        r is Ok <==> report_share_list_u32_encodable(items.deep_view()),
        r is Ok ==> final(bytes)@ == old(bytes)@ + enc_report_share_list_u32(items.deep_view()),
{
    let mut tmp: Vec<u8> = Vec::new();
    encode_report_share_items(&mut tmp, items)?;
    encode_u32_bytes(bytes, tmp.as_slice())
}

/// Read a list of report shares prefixed by its byte length as a 32-bit
/// integer.
pub fn decode_report_share_list_u32(bytes: &[u8], pos: &mut usize) -> (r: Result<
    Vec<ReportShare>,
    CodecError,
>)
    requires
        *old(pos) <= bytes@.len(),
    ensures
        *old(pos) <= *final(pos) <= bytes@.len(),
        match r {
            Ok(items) => dec_report_share_list_u32(bytes@.skip(*old(pos) as int)) == Ok::<
                _,
                CodecError,
            >((items.deep_view(), bytes@.skip(*final(pos) as int))),
            Err(e) => dec_report_share_list_u32(bytes@.skip(*old(pos) as int)) == Err::<
                (Seq<ReportShareView>, Seq<u8>),
                CodecError,
            >(e),
        },
{
    let body = decode_u32_bytes(bytes, pos)?;
    match decode_report_share_items(body.as_slice()) {
        Ok(items) => Ok(items),
        Err(e) => Err(e),
    }
}

/// The batch parameter carried in an aggregate initialization request.
#[derive(Clone, Debug, PartialEq, Eq)]
pub enum BatchParameter {
    TimeInterval,
    FixedSize { batch_id: Id },
}

/// The mathematical value of a [`BatchParameter`].
pub enum BatchParameterView {
    TimeInterval,
    FixedSize { batch_id: Seq<u8> },
}

impl View for BatchParameter {
    type V = BatchParameterView;

    open spec fn view(&self) -> BatchParameterView {
        match self {
            BatchParameter::TimeInterval => BatchParameterView::TimeInterval,
            BatchParameter::FixedSize { batch_id } => BatchParameterView::FixedSize {
                batch_id: batch_id@,
            },
        }
    }
}

impl DeepView for BatchParameter {
    type V = BatchParameterView;

    open spec fn deep_view(&self) -> BatchParameterView {
        self.view()
    }
}

impl BatchParameterView {
    pub open spec fn encoding(self) -> Seq<u8> {
        match self {
            BatchParameterView::TimeInterval => enc_u16(QUERY_TYPE_TIME_INTERVAL),
            BatchParameterView::FixedSize { batch_id } => enc_u16(QUERY_TYPE_FIXED_SIZE)
                + batch_id,
        }
    }

    pub open spec fn encodable(self) -> bool {
        true
    }

    pub open spec fn wf(self) -> bool {
        match self {
            BatchParameterView::TimeInterval => true,
            BatchParameterView::FixedSize { batch_id } => id_wf(batch_id),
        }
    }

    pub open spec fn dec(s: Seq<u8>) -> Result<(BatchParameterView, Seq<u8>), CodecError> {
        match dec_u16(s) {
            Err(e) => Err(e),
            Ok((tag, s)) => if tag == QUERY_TYPE_TIME_INTERVAL {
                Ok((BatchParameterView::TimeInterval, s))
            } else if tag == QUERY_TYPE_FIXED_SIZE {
                match dec_fixed(s, 32) {
                    Err(e) => Err(e),
                    Ok((batch_id, s)) => Ok((BatchParameterView::FixedSize { batch_id }, s)),
                }
            } else {
                Err(CodecError::UnexpectedValue)
            },
        }
    }

    /// Decoding inverts encoding on every well-formed batch parameter.
    pub proof fn lemma_round_trip(t: BatchParameterView, rest: Seq<u8>)
        requires
            t.wf(),
        ensures
            Self::dec(t.encoding() + rest) == Ok::<_, CodecError>((t, rest)),
            t.encoding().len() >= 1,
    {
        match t {
            BatchParameterView::TimeInterval => {
                lemma_u16_round_trip(QUERY_TYPE_TIME_INTERVAL, rest);
            },
            BatchParameterView::FixedSize { batch_id } => {
                lemma_concat3(enc_u16(QUERY_TYPE_FIXED_SIZE), batch_id, rest);
                lemma_u16_round_trip(QUERY_TYPE_FIXED_SIZE, batch_id + rest);
                lemma_fixed_round_trip(batch_id, rest);
            },
        }
    }

    /// Whatever decodes was the canonical encoding of what came out.
    pub proof fn lemma_canonical(s: Seq<u8>)
        ensures
            Self::dec(s) matches Ok((t, rest)) ==> t.wf() && t.encoding() + rest == s,
    {
        if dec_u16(s) is Ok {
            lemma_u16_canonical(s);
            let (tag, s1) = dec_u16(s)->Ok_0;
            if tag == QUERY_TYPE_FIXED_SIZE {
                lemma_fixed_canonical(s1, 32);
                if dec_fixed(s1, 32) is Ok {
                    let (batch_id, rest) = dec_fixed(s1, 32)->Ok_0;
                    lemma_concat3(enc_u16(QUERY_TYPE_FIXED_SIZE), batch_id, rest);
                }
            }
        }
    }

    /// What the decoder reads does not change when more input follows.
    pub proof fn lemma_prefix(s: Seq<u8>, extra: Seq<u8>)
        ensures
            Self::dec(s) matches Ok((t, rest)) ==> Self::dec(s + extra) == Ok::<_, CodecError>(
                (t, rest + extra),
            ),
    {
        lemma_u16_prefix(s, extra);
        if dec_u16(s) is Ok {
            let (tag, s1) = dec_u16(s)->Ok_0;
            if tag == QUERY_TYPE_FIXED_SIZE {
                lemma_fixed_prefix(s1, extra, 32);
            }
        }
    }
}

impl BatchParameter {
    pub fn encode(&self, bytes: &mut Vec<u8>) -> (r: Result<(), CodecError>)
        ensures
            r is Ok,
            final(bytes)@ == old(bytes)@ + self@.encoding(),
    {
        match self {
            BatchParameter::TimeInterval => {
                encode_u16(bytes, QUERY_TYPE_TIME_INTERVAL);
            },
            BatchParameter::FixedSize { batch_id } => {
                encode_u16(bytes, QUERY_TYPE_FIXED_SIZE);
                batch_id.encode(bytes)?;
            },
        }
        proof {
            assert(bytes@ =~= old(bytes)@ + self@.encoding());
        }
        Ok(())
    }

    pub fn decode(bytes: &[u8], pos: &mut usize) -> (r: Result<BatchParameter, CodecError>)
        requires
            *old(pos) <= bytes@.len(),
        ensures
            *old(pos) <= *final(pos) <= bytes@.len(),
            match r {
                Ok(t) => BatchParameterView::dec(bytes@.skip(*old(pos) as int)) == Ok::<
                    _,
                    CodecError,
                >((t@, bytes@.skip(*final(pos) as int))),
                Err(e) => BatchParameterView::dec(bytes@.skip(*old(pos) as int)) == Err::<
                    (BatchParameterView, Seq<u8>),
                    CodecError,
                >(e),
            },
    {
        let tag = decode_u16(bytes, pos)?;
        if tag == QUERY_TYPE_TIME_INTERVAL {
            Ok(BatchParameter::TimeInterval)
        } else if tag == QUERY_TYPE_FIXED_SIZE {
            let batch_id = Id::decode(bytes, pos)?;
            Ok(BatchParameter::FixedSize { batch_id })
        } else {
            Err(CodecError::UnexpectedValue)
        }
    }
}

/// Aggregate initialization request, sent by the Leader to the Helper.
#[derive(Clone, Debug, PartialEq, Eq)]
pub struct AggregateInitializeReq {
    pub task_id: Id,
    pub agg_job_id: Id,
    pub agg_param: Vec<u8>,
    pub batch_param: BatchParameter,
    pub report_shares: Vec<ReportShare>,
}

/// The mathematical value of an [`AggregateInitializeReq`].
pub struct AggregateInitializeReqView {
    pub task_id: Seq<u8>,
    pub agg_job_id: Seq<u8>,
    pub agg_param: Seq<u8>,
    pub batch_param: BatchParameterView,
    pub report_shares: Seq<ReportShareView>,
}

impl View for AggregateInitializeReq {
    type V = AggregateInitializeReqView;

    open spec fn view(&self) -> AggregateInitializeReqView {
        AggregateInitializeReqView {
            task_id: self.task_id@,
            agg_job_id: self.agg_job_id@,
            agg_param: self.agg_param@,
            batch_param: self.batch_param@,
            report_shares: self.report_shares.deep_view(),
        }
    }
}

impl DeepView for AggregateInitializeReq {
    type V = AggregateInitializeReqView;

    open spec fn deep_view(&self) -> AggregateInitializeReqView {
        self.view()
    }
}

impl AggregateInitializeReqView {
    pub open spec fn encoding(self) -> Seq<u8> {
        self.task_id + self.agg_job_id + enc_prefixed_u16(self.agg_param)
            + self.batch_param.encoding() + enc_report_share_list_u32(self.report_shares)
    }

    pub open spec fn encodable(self) -> bool {
        fits_u16(self.agg_param) && report_share_list_u32_encodable(self.report_shares)
    }

    pub open spec fn wf(self) -> bool {
        id_wf(self.task_id) && id_wf(self.agg_job_id) && fits_u16(self.agg_param)
            && self.batch_param.wf() && items_wf(self.report_shares) && fits_u32(
            items_encoding(self.report_shares),
        )
    }

    pub open spec fn dec(s: Seq<u8>) -> Result<(AggregateInitializeReqView, Seq<u8>), CodecError> {
        match dec_fixed(s, 32) {
            Err(e) => Err(e),
            Ok((task_id, s)) => match dec_fixed(s, 32) {
                Err(e) => Err(e),
                Ok((agg_job_id, s)) => match dec_prefixed_u16(s) {
                    Err(e) => Err(e),
                    Ok((agg_param, s)) => match BatchParameterView::dec(s) {
                        Err(e) => Err(e),
                        Ok((batch_param, s)) => match dec_report_share_list_u32(s) {
                            Err(e) => Err(e),
                            Ok((report_shares, s)) => Ok(
                                (
                                    AggregateInitializeReqView {
                                        task_id,
                                        agg_job_id,
                                        agg_param,
                                        batch_param,
                                        report_shares,
                                    },
                                    s,
                                ),
                            ),
                        },
                    },
                },
            },
        }
    }

    /// Decoding inverts encoding on every well-formed request.
    #[verifier::rlimit(60)]
    pub proof fn lemma_round_trip(t: AggregateInitializeReqView, rest: Seq<u8>)
        requires
            t.wf(),
        ensures
            Self::dec(t.encoding() + rest) == Ok::<_, CodecError>((t, rest)),
            t.encoding().len() >= 1,
    {
        let s4 = enc_report_share_list_u32(t.report_shares) + rest;
        let s3 = t.batch_param.encoding() + s4;
        let s2 = enc_prefixed_u16(t.agg_param) + s3;
        let s1 = t.agg_job_id + s2;
        lemma_concat6(
            t.task_id,
            t.agg_job_id,
            enc_prefixed_u16(t.agg_param),
            t.batch_param.encoding(),
            enc_report_share_list_u32(t.report_shares),
            rest,
        );
        assert(t.task_id.len() == 32);
        assert(t.agg_job_id.len() == 32);
        lemma_fixed_round_trip(t.task_id, s1);
        lemma_fixed_round_trip(t.agg_job_id, s2);
        lemma_prefixed_u16_round_trip(t.agg_param, s3);
        BatchParameterView::lemma_round_trip(t.batch_param, s4);
        lemma_report_share_list_u32_round_trip(t.report_shares, rest);
    }

    /// Whatever decodes was the canonical encoding of what came out.
    #[verifier::rlimit(60)]
    pub proof fn lemma_canonical(s: Seq<u8>)
        ensures
            Self::dec(s) matches Ok((t, rest)) ==> t.wf() && t.encoding() + rest == s,
    {
        if Self::dec(s) is Ok {
            lemma_fixed_canonical(s, 32);
            let (task_id, s1) = dec_fixed(s, 32)->Ok_0;
            lemma_fixed_canonical(s1, 32);
            let (agg_job_id, s2) = dec_fixed(s1, 32)->Ok_0;
            lemma_prefixed_u16_canonical(s2);
            let (agg_param, s3) = dec_prefixed_u16(s2)->Ok_0;
            BatchParameterView::lemma_canonical(s3);
            let (batch_param, s4) = BatchParameterView::dec(s3)->Ok_0;
            lemma_report_share_list_u32_canonical(s4);
            let (report_shares, rest) = dec_report_share_list_u32(s4)->Ok_0;
            lemma_concat6(
                task_id,
                agg_job_id,
                enc_prefixed_u16(agg_param),
                batch_param.encoding(),
                enc_report_share_list_u32(report_shares),
                rest,
            );
        }
    }

    /// What the decoder reads does not change when more input follows.
    pub proof fn lemma_prefix(s: Seq<u8>, extra: Seq<u8>)
        ensures
            Self::dec(s) matches Ok((t, rest)) ==> Self::dec(s + extra) == Ok::<_, CodecError>(
                (t, rest + extra),
            ),
    {
        lemma_fixed_prefix(s, extra, 32);
        if dec_fixed(s, 32) is Ok {
            let (task_id, s1) = dec_fixed(s, 32)->Ok_0;
            lemma_fixed_prefix(s1, extra, 32);
            if dec_fixed(s1, 32) is Ok {
                let (agg_job_id, s2) = dec_fixed(s1, 32)->Ok_0;
                lemma_prefixed_u16_prefix(s2, extra);
                if dec_prefixed_u16(s2) is Ok {
                    let (agg_param, s3) = dec_prefixed_u16(s2)->Ok_0;
                    BatchParameterView::lemma_prefix(s3, extra);
                    if BatchParameterView::dec(s3) is Ok {
                        let (batch_param, s4) = BatchParameterView::dec(s3)->Ok_0;
                        lemma_report_share_list_u32_prefix(s4, extra);
                    }
                }
            }
        }
    }

    /// A buffer truncated by at least one byte anywhere inside a well-formed
    /// request fails to decode in full.
    #[verifier::spinoff_prover]
    #[verifier::rlimit(100)]
    pub proof fn lemma_truncation(t: AggregateInitializeReqView, k: int)
        requires
            t.wf(),
            0 <= k < t.encoding().len(),
        ensures
            crate::codec::dec_full(Self::dec(t.encoding().take(k))) is Err,
    {
        let enc = t.encoding();
        let p = enc.take(k);
        if Self::dec(p) is Ok {
            let (u, rest) = Self::dec(p)->Ok_0;
            if rest.len() == 0 {
                Self::lemma_prefix(p, enc.skip(k));
                crate::codec::lemma_take_skip(enc, k);
                Self::lemma_round_trip(t, Seq::empty());
                crate::codec::lemma_add_empty_right(enc);
                crate::codec::lemma_add_empty_left(enc.skip(k));
                assert(false);
            }
        }
    }
}

impl AggregateInitializeReq {
    pub fn encode(&self, bytes: &mut Vec<u8>) -> (r: Result<(), CodecError>)
        ensures
            r is Ok <==> self@.encodable(),
            r is Ok ==> final(bytes)@ == old(bytes)@ + self@.encoding(),
    {
        self.task_id.encode(bytes)?;
        self.agg_job_id.encode(bytes)?;
        encode_u16_bytes(bytes, self.agg_param.as_slice())?;
        self.batch_param.encode(bytes)?;
        encode_report_share_list_u32(bytes, &self.report_shares)?;
        proof {
            assert(bytes@ =~= old(bytes)@ + self@.encoding());
        }
        Ok(())
    }

    pub fn decode(bytes: &[u8], pos: &mut usize) -> (r: Result<AggregateInitializeReq, CodecError>)
        requires
            *old(pos) <= bytes@.len(),
        ensures
            *old(pos) <= *final(pos) <= bytes@.len(),
            match r {
                Ok(t) => AggregateInitializeReqView::dec(bytes@.skip(*old(pos) as int)) == Ok::<
                    _,
                    CodecError,
                >((t@, bytes@.skip(*final(pos) as int))),
                Err(e) => AggregateInitializeReqView::dec(bytes@.skip(*old(pos) as int)) == Err::<
                    (AggregateInitializeReqView, Seq<u8>),
                    CodecError,
                >(e),
            },
    {
        let task_id = Id::decode(bytes, pos)?;
        let agg_job_id = Id::decode(bytes, pos)?;
        let agg_param = decode_u16_bytes(bytes, pos)?;
        let batch_param = BatchParameter::decode(bytes, pos)?;
        let report_shares = decode_report_share_list_u32(bytes, pos)?;
        Ok(AggregateInitializeReq { task_id, agg_job_id, agg_param, batch_param, report_shares })
    }
}

/// Aggregate continuation request, sent by the Leader to the Helper on each
/// round after the first.
#[derive(Clone, Debug, PartialEq, Eq)]
pub struct AggregateContinueReq {
    pub task_id: Id,
    pub agg_job_id: Id,
    pub transitions: Vec<Transition>,
}

/// The mathematical value of an [`AggregateContinueReq`].
pub struct AggregateContinueReqView {
    pub task_id: Seq<u8>,
    pub agg_job_id: Seq<u8>,
    pub transitions: Seq<TransitionView>,
}

impl View for AggregateContinueReq {
    type V = AggregateContinueReqView;

    open spec fn view(&self) -> AggregateContinueReqView {
        AggregateContinueReqView {
            task_id: self.task_id@,
            agg_job_id: self.agg_job_id@,
            transitions: self.transitions.deep_view(),
        }
    }
}

impl DeepView for AggregateContinueReq {
    type V = AggregateContinueReqView;

    open spec fn deep_view(&self) -> AggregateContinueReqView {
        self.view()
    }
}

impl AggregateContinueReqView {
    pub open spec fn encoding(self) -> Seq<u8> {
        self.task_id + self.agg_job_id + enc_transition_list_u32(self.transitions)
    }

    pub open spec fn encodable(self) -> bool {
        transition_list_u32_encodable(self.transitions)
    }

    pub open spec fn wf(self) -> bool {
        id_wf(self.task_id) && id_wf(self.agg_job_id) && items_wf(self.transitions) && fits_u32(
            items_encoding(self.transitions),
        )
    }

    pub open spec fn dec(s: Seq<u8>) -> Result<(AggregateContinueReqView, Seq<u8>), CodecError> {
        match dec_fixed(s, 32) {
            Err(e) => Err(e),
            Ok((task_id, s)) => match dec_fixed(s, 32) {
                Err(e) => Err(e),
                Ok((agg_job_id, s)) => match dec_transition_list_u32(s) {
                    Err(e) => Err(e),
                    Ok((transitions, s)) => Ok(
                        (AggregateContinueReqView { task_id, agg_job_id, transitions }, s),
                    ),
                },
            },
        }
    }

    /// Decoding inverts encoding on every well-formed request.
    pub proof fn lemma_round_trip(t: AggregateContinueReqView, rest: Seq<u8>)
        requires
            t.wf(),
        ensures
            Self::dec(t.encoding() + rest) == Ok::<_, CodecError>((t, rest)),
            t.encoding().len() >= 1,
    {
        let s2 = enc_transition_list_u32(t.transitions) + rest;
        let s1 = t.agg_job_id + s2;
        lemma_concat4(t.task_id, t.agg_job_id, enc_transition_list_u32(t.transitions), rest);
        assert(t.task_id.len() == 32);
        assert(t.agg_job_id.len() == 32);
        lemma_fixed_round_trip(t.task_id, s1);
        lemma_fixed_round_trip(t.agg_job_id, s2);
        lemma_transition_list_u32_round_trip(t.transitions, rest);
    }

    /// Whatever decodes was the canonical encoding of what came out.
    pub proof fn lemma_canonical(s: Seq<u8>)
        ensures
            Self::dec(s) matches Ok((t, rest)) ==> t.wf() && t.encoding() + rest == s,
    {
        if Self::dec(s) is Ok {
            lemma_fixed_canonical(s, 32);
            let (task_id, s1) = dec_fixed(s, 32)->Ok_0;
            lemma_fixed_canonical(s1, 32);
            let (agg_job_id, s2) = dec_fixed(s1, 32)->Ok_0;
            lemma_transition_list_u32_canonical(s2);
            let (transitions, rest) = dec_transition_list_u32(s2)->Ok_0;
            lemma_concat4(task_id, agg_job_id, enc_transition_list_u32(transitions), rest);
        }
    }

    /// What the decoder reads does not change when more input follows.
    pub proof fn lemma_prefix(s: Seq<u8>, extra: Seq<u8>)
        ensures
            Self::dec(s) matches Ok((t, rest)) ==> Self::dec(s + extra) == Ok::<_, CodecError>(
                (t, rest + extra),
            ),
    {
        lemma_fixed_prefix(s, extra, 32);
        if dec_fixed(s, 32) is Ok {
            let (task_id, s1) = dec_fixed(s, 32)->Ok_0;
            lemma_fixed_prefix(s1, extra, 32);
            if dec_fixed(s1, 32) is Ok {
                let (agg_job_id, s2) = dec_fixed(s1, 32)->Ok_0;
                lemma_transition_list_u32_prefix(s2, extra);
            }
        }
    }

    /// A buffer truncated by at least one byte anywhere inside a well-formed
    /// request fails to decode in full.
    pub proof fn lemma_truncation(t: AggregateContinueReqView, k: int)
        requires
            t.wf(),
            0 <= k < t.encoding().len(),
        ensures
            crate::codec::dec_full(Self::dec(t.encoding().take(k))) is Err,
    {
        let enc = t.encoding();
        let p = enc.take(k);
        if Self::dec(p) is Ok {
            let (u, rest) = Self::dec(p)->Ok_0;
            if rest.len() == 0 {
                Self::lemma_prefix(p, enc.skip(k));
                crate::codec::lemma_take_skip(enc, k);
                Self::lemma_round_trip(t, Seq::empty());
                crate::codec::lemma_add_empty_right(enc);
                crate::codec::lemma_add_empty_left(enc.skip(k));
                assert(false);
            }
        }
    }
}

impl AggregateContinueReq {
    pub fn encode(&self, bytes: &mut Vec<u8>) -> (r: Result<(), CodecError>)
        ensures
            r is Ok <==> self@.encodable(),
            r is Ok ==> final(bytes)@ == old(bytes)@ + self@.encoding(),
    {
        self.task_id.encode(bytes)?;
        self.agg_job_id.encode(bytes)?;
        encode_transition_list_u32(bytes, &self.transitions)?;
        proof {
            assert(bytes@ =~= old(bytes)@ + self@.encoding());
        }
        Ok(())
    }

    pub fn decode(bytes: &[u8], pos: &mut usize) -> (r: Result<AggregateContinueReq, CodecError>)
        requires
            *old(pos) <= bytes@.len(),
        ensures
            *old(pos) <= *final(pos) <= bytes@.len(),
            match r {
                Ok(t) => AggregateContinueReqView::dec(bytes@.skip(*old(pos) as int)) == Ok::<
                    _,
                    CodecError,
                >((t@, bytes@.skip(*final(pos) as int))),
                Err(e) => AggregateContinueReqView::dec(bytes@.skip(*old(pos) as int)) == Err::<
                    (AggregateContinueReqView, Seq<u8>),
                    CodecError,
                >(e),
            },
    {
        let task_id = Id::decode(bytes, pos)?;
        let agg_job_id = Id::decode(bytes, pos)?;
        let transitions = decode_transition_list_u32(bytes, pos)?;
        Ok(AggregateContinueReq { task_id, agg_job_id, transitions })
    }
}

/// An aggregate response, sent from the Helper to the Leader.
#[derive(Clone, Debug, PartialEq, Eq)]
pub struct AggregateResp {
    pub transitions: Vec<Transition>,
}

/// The mathematical value of an [`AggregateResp`].
pub struct AggregateRespView {
    pub transitions: Seq<TransitionView>,
}

impl View for AggregateResp {
    type V = AggregateRespView;

    open spec fn view(&self) -> AggregateRespView {
        AggregateRespView { transitions: self.transitions.deep_view() }
    }
}

impl DeepView for AggregateResp {
    type V = AggregateRespView;

    open spec fn deep_view(&self) -> AggregateRespView {
        self.view()
    }
}

impl AggregateRespView {
    pub open spec fn encoding(self) -> Seq<u8> {
        enc_transition_list_u32(self.transitions)
    }

    pub open spec fn encodable(self) -> bool {
        transition_list_u32_encodable(self.transitions)
    }

    pub open spec fn wf(self) -> bool {
        items_wf(self.transitions) && fits_u32(items_encoding(self.transitions))
    }

    pub open spec fn dec(s: Seq<u8>) -> Result<(AggregateRespView, Seq<u8>), CodecError> {
        match dec_transition_list_u32(s) {
            Err(e) => Err(e),
            Ok((transitions, s)) => Ok((AggregateRespView { transitions }, s)),
        }
    }

    /// Decoding inverts encoding on every well-formed response.
    pub proof fn lemma_round_trip(t: AggregateRespView, rest: Seq<u8>)
        requires
            t.wf(),
        ensures
            Self::dec(t.encoding() + rest) == Ok::<_, CodecError>((t, rest)),
            t.encoding().len() >= 1,
    {
        lemma_transition_list_u32_round_trip(t.transitions, rest);
    }

    /// Whatever decodes was the canonical encoding of what came out.
    pub proof fn lemma_canonical(s: Seq<u8>)
        ensures
            Self::dec(s) matches Ok((t, rest)) ==> t.wf() && t.encoding() + rest == s,
    {
        lemma_transition_list_u32_canonical(s);
    }

    /// What the decoder reads does not change when more input follows.
    pub proof fn lemma_prefix(s: Seq<u8>, extra: Seq<u8>)
        ensures
            Self::dec(s) matches Ok((t, rest)) ==> Self::dec(s + extra) == Ok::<_, CodecError>(
                (t, rest + extra),
            ),
    {
        lemma_transition_list_u32_prefix(s, extra);
    }

    /// A buffer truncated by at least one byte anywhere inside a well-formed
    /// response fails to decode in full.
    pub proof fn lemma_truncation(t: AggregateRespView, k: int)
        requires
            t.wf(),
            0 <= k < t.encoding().len(),
        ensures
            crate::codec::dec_full(Self::dec(t.encoding().take(k))) is Err,
    {
        let enc = t.encoding();
        let p = enc.take(k);
        if Self::dec(p) is Ok {
            let (u, rest) = Self::dec(p)->Ok_0;
            if rest.len() == 0 {
                Self::lemma_prefix(p, enc.skip(k));
                crate::codec::lemma_take_skip(enc, k);
                Self::lemma_round_trip(t, Seq::empty());
                crate::codec::lemma_add_empty_right(enc);
                crate::codec::lemma_add_empty_left(enc.skip(k));
                assert(false);
            }
        }
    }
}

impl AggregateResp {
    pub fn encode(&self, bytes: &mut Vec<u8>) -> (r: Result<(), CodecError>)
        ensures
            r is Ok <==> self@.encodable(),
            r is Ok ==> final(bytes)@ == old(bytes)@ + self@.encoding(),
    {
        encode_transition_list_u32(bytes, &self.transitions)
    }

    pub fn decode(bytes: &[u8], pos: &mut usize) -> (r: Result<AggregateResp, CodecError>)
        requires
            *old(pos) <= bytes@.len(),
        ensures
            *old(pos) <= *final(pos) <= bytes@.len(),
            match r {
                Ok(t) => AggregateRespView::dec(bytes@.skip(*old(pos) as int)) == Ok::<
                    _,
                    CodecError,
                >((t@, bytes@.skip(*final(pos) as int))),
                Err(e) => AggregateRespView::dec(bytes@.skip(*old(pos) as int)) == Err::<
                    (AggregateRespView, Seq<u8>),
                    CodecError,
                >(e),
            },
    {
        let transitions = decode_transition_list_u32(bytes, pos)?;
        Ok(AggregateResp { transitions })
    }
}

/// An aggregate-share request, sent by the Leader to the Helper when a batch is
/// collected. The checksum commits to the set of reports aggregated.
#[derive(Clone, Debug, PartialEq, Eq)]
pub struct AggregateShareReq {
    pub task_id: Id,
    pub batch_selector: BatchSelector,
    pub agg_param: Vec<u8>,
    pub report_count: u64,
    pub checksum: Vec<u8>,
}

/// The mathematical value of an [`AggregateShareReq`].
pub struct AggregateShareReqView {
    pub task_id: Seq<u8>,
    pub batch_selector: QueryView,
    pub agg_param: Seq<u8>,
    pub report_count: u64,
    pub checksum: Seq<u8>,
}

impl View for AggregateShareReq {
    type V = AggregateShareReqView;

    open spec fn view(&self) -> AggregateShareReqView {
        AggregateShareReqView {
            task_id: self.task_id@,
            batch_selector: self.batch_selector@,
            agg_param: self.agg_param@,
            report_count: self.report_count,
            checksum: self.checksum@,
        }
    }
}

impl DeepView for AggregateShareReq {
    type V = AggregateShareReqView;

    open spec fn deep_view(&self) -> AggregateShareReqView {
        self.view()
    }
}

impl AggregateShareReqView {
    pub open spec fn encoding(self) -> Seq<u8> {
        self.task_id + self.batch_selector.encoding() + enc_prefixed_u16(self.agg_param) + enc_u64(
            self.report_count,
        ) + self.checksum
    }

    pub open spec fn encodable(self) -> bool {
        fits_u16(self.agg_param)
    }

    pub open spec fn wf(self) -> bool {
        id_wf(self.task_id) && self.batch_selector.wf() && fits_u16(self.agg_param)
            && self.checksum.len() == 32
    }

    pub open spec fn dec(s: Seq<u8>) -> Result<(AggregateShareReqView, Seq<u8>), CodecError> {
        match dec_fixed(s, 32) {
            Err(e) => Err(e),
            Ok((task_id, s)) => match QueryView::dec(s) {
                Err(e) => Err(e),
                Ok((batch_selector, s)) => match dec_prefixed_u16(s) {
                    Err(e) => Err(e),
                    Ok((agg_param, s)) => match dec_u64(s) {
                        Err(e) => Err(e),
                        Ok((report_count, s)) => match dec_fixed(s, 32) {
                            Err(e) => Err(e),
                            Ok((checksum, s)) => Ok(
                                (
                                    AggregateShareReqView {
                                        task_id,
                                        batch_selector,
                                        agg_param,
                                        report_count,
                                        checksum,
                                    },
                                    s,
                                ),
                            ),
                        },
                    },
                },
            },
        }
    }

    /// Decoding inverts encoding on every well-formed request.
    #[verifier::rlimit(60)]
    pub proof fn lemma_round_trip(t: AggregateShareReqView, rest: Seq<u8>)
        requires
            t.wf(),
        ensures
            Self::dec(t.encoding() + rest) == Ok::<_, CodecError>((t, rest)),
            t.encoding().len() >= 1,
    {
        let s4 = t.checksum + rest;
        let s3 = enc_u64(t.report_count) + s4;
        let s2 = enc_prefixed_u16(t.agg_param) + s3;
        let s1 = t.batch_selector.encoding() + s2;
        lemma_concat6(
            t.task_id,
            t.batch_selector.encoding(),
            enc_prefixed_u16(t.agg_param),
            enc_u64(t.report_count),
            t.checksum,
            rest,
        );
        assert(t.task_id.len() == 32);
        assert(t.checksum.len() == 32);
        lemma_fixed_round_trip(t.task_id, s1);
        QueryView::lemma_round_trip(t.batch_selector, s2);
        lemma_prefixed_u16_round_trip(t.agg_param, s3);
        lemma_u64_round_trip(t.report_count, s4);
        lemma_fixed_round_trip(t.checksum, rest);
    }

    /// Whatever decodes was the canonical encoding of what came out.
    #[verifier::rlimit(60)]
    pub proof fn lemma_canonical(s: Seq<u8>)
        ensures
            Self::dec(s) matches Ok((t, rest)) ==> t.wf() && t.encoding() + rest == s,
    {
        if Self::dec(s) is Ok {
            lemma_fixed_canonical(s, 32);
            let (task_id, s1) = dec_fixed(s, 32)->Ok_0;
            QueryView::lemma_canonical(s1);
            let (batch_selector, s2) = QueryView::dec(s1)->Ok_0;
            lemma_prefixed_u16_canonical(s2);
            let (agg_param, s3) = dec_prefixed_u16(s2)->Ok_0;
            lemma_u64_canonical(s3);
            let (report_count, s4) = dec_u64(s3)->Ok_0;
            lemma_fixed_canonical(s4, 32);
            let (checksum, rest) = dec_fixed(s4, 32)->Ok_0;
            lemma_concat6(
                task_id,
                batch_selector.encoding(),
                enc_prefixed_u16(agg_param),
                enc_u64(report_count),
                checksum,
                rest,
            );
        }
    }

    /// What the decoder reads does not change when more input follows.
    pub proof fn lemma_prefix(s: Seq<u8>, extra: Seq<u8>)
        ensures
            Self::dec(s) matches Ok((t, rest)) ==> Self::dec(s + extra) == Ok::<_, CodecError>(
                (t, rest + extra),
            ),
    {
        lemma_fixed_prefix(s, extra, 32);
        if dec_fixed(s, 32) is Ok {
            let (task_id, s1) = dec_fixed(s, 32)->Ok_0;
            QueryView::lemma_prefix(s1, extra);
            if QueryView::dec(s1) is Ok {
                let (batch_selector, s2) = QueryView::dec(s1)->Ok_0;
                lemma_prefixed_u16_prefix(s2, extra);
                if dec_prefixed_u16(s2) is Ok {
                    let (agg_param, s3) = dec_prefixed_u16(s2)->Ok_0;
                    lemma_u64_prefix(s3, extra);
                    if dec_u64(s3) is Ok {
                        let (report_count, s4) = dec_u64(s3)->Ok_0;
                        lemma_fixed_prefix(s4, extra, 32);
                    }
                }
            }
        }
    }

    /// A buffer truncated by at least one byte anywhere inside a well-formed
    /// request fails to decode in full.
    pub proof fn lemma_truncation(t: AggregateShareReqView, k: int)
        requires
            t.wf(),
            0 <= k < t.encoding().len(),
        ensures
            crate::codec::dec_full(Self::dec(t.encoding().take(k))) is Err,
    {
        let enc = t.encoding();
        let p = enc.take(k);
        if Self::dec(p) is Ok {
            let (u, rest) = Self::dec(p)->Ok_0;
            if rest.len() == 0 {
                Self::lemma_prefix(p, enc.skip(k));
                crate::codec::lemma_take_skip(enc, k);
                Self::lemma_round_trip(t, Seq::empty());
                crate::codec::lemma_add_empty_right(enc);
                crate::codec::lemma_add_empty_left(enc.skip(k));
                assert(false);
            }
        }
    }
}

impl AggregateShareReq {
    pub fn encode(&self, bytes: &mut Vec<u8>) -> (r: Result<(), CodecError>)
        ensures
            r is Ok <==> self@.encodable(),
            r is Ok ==> final(bytes)@ == old(bytes)@ + self@.encoding(),
    {
        self.task_id.encode(bytes)?;
        self.batch_selector.encode(bytes)?;
        encode_u16_bytes(bytes, self.agg_param.as_slice())?;
        encode_u64(bytes, self.report_count);
        crate::codec::encode_raw(bytes, self.checksum.as_slice());
        proof {
            assert(bytes@ =~= old(bytes)@ + self@.encoding());
        }
        Ok(())
    }

    pub fn decode(bytes: &[u8], pos: &mut usize) -> (r: Result<AggregateShareReq, CodecError>)
        requires
            *old(pos) <= bytes@.len(),
        ensures
            *old(pos) <= *final(pos) <= bytes@.len(),
            match r {
                Ok(t) => AggregateShareReqView::dec(bytes@.skip(*old(pos) as int)) == Ok::<
                    _,
                    CodecError,
                >((t@, bytes@.skip(*final(pos) as int))),
                Err(e) => AggregateShareReqView::dec(bytes@.skip(*old(pos) as int)) == Err::<
                    (AggregateShareReqView, Seq<u8>),
                    CodecError,
                >(e),
            },
    {
        let task_id = Id::decode(bytes, pos)?;
        let batch_selector = BatchSelector::decode(bytes, pos)?;
        let agg_param = decode_u16_bytes(bytes, pos)?;
        let report_count = decode_u64(bytes, pos)?;
        let checksum = decode_raw(bytes, pos, 32)?;
        Ok(AggregateShareReq { task_id, batch_selector, agg_param, report_count, checksum })
    }
}

/// An aggregate-share response: the Helper's share, encrypted to the Collector.
#[derive(Clone, Debug, PartialEq, Eq)]
pub struct AggregateShareResp {
    pub encrypted_agg_share: crate::hpke::HpkeCiphertext,
}

/// The mathematical value of an [`AggregateShareResp`].
pub struct AggregateShareRespView {
    pub encrypted_agg_share: crate::hpke::HpkeCiphertextView,
}

impl View for AggregateShareResp {
    type V = AggregateShareRespView;

    open spec fn view(&self) -> AggregateShareRespView {
        AggregateShareRespView { encrypted_agg_share: self.encrypted_agg_share@ }
    }
}

impl DeepView for AggregateShareResp {
    type V = AggregateShareRespView;

    open spec fn deep_view(&self) -> AggregateShareRespView {
        self.view()
    }
}

impl AggregateShareRespView {
    pub open spec fn encoding(self) -> Seq<u8> {
        self.encrypted_agg_share.encoding()
    }

    pub open spec fn encodable(self) -> bool {
        self.encrypted_agg_share.encodable()
    }

    pub open spec fn wf(self) -> bool {
        self.encrypted_agg_share.wf()
    }

    pub open spec fn dec(s: Seq<u8>) -> Result<(AggregateShareRespView, Seq<u8>), CodecError> {
        match crate::hpke::HpkeCiphertextView::dec(s) {
            Err(e) => Err(e),
            Ok((encrypted_agg_share, s)) => Ok((AggregateShareRespView { encrypted_agg_share }, s)),
        }
    }

    /// Decoding inverts encoding on every well-formed response.
    pub proof fn lemma_round_trip(t: AggregateShareRespView, rest: Seq<u8>)
        requires
            t.wf(),
        ensures
            Self::dec(t.encoding() + rest) == Ok::<_, CodecError>((t, rest)),
            t.encoding().len() >= 1,
    {
        crate::hpke::HpkeCiphertextView::lemma_round_trip(t.encrypted_agg_share, rest);
    }

    /// Whatever decodes was the canonical encoding of what came out.
    pub proof fn lemma_canonical(s: Seq<u8>)
        ensures
            Self::dec(s) matches Ok((t, rest)) ==> t.wf() && t.encoding() + rest == s,
    {
        crate::hpke::HpkeCiphertextView::lemma_canonical(s);
    }

    /// What the decoder reads does not change when more input follows.
    pub proof fn lemma_prefix(s: Seq<u8>, extra: Seq<u8>)
        ensures
            Self::dec(s) matches Ok((t, rest)) ==> Self::dec(s + extra) == Ok::<_, CodecError>(
                (t, rest + extra),
            ),
    {
        crate::hpke::HpkeCiphertextView::lemma_prefix(s, extra);
    }

    /// A buffer truncated by at least one byte anywhere inside a well-formed
    /// response fails to decode in full.
    #[verifier::spinoff_prover]
    #[verifier::rlimit(100)]
    pub proof fn lemma_truncation(t: AggregateShareRespView, k: int)
        requires
            t.wf(),
            0 <= k < t.encoding().len(),
        ensures
            crate::codec::dec_full(Self::dec(t.encoding().take(k))) is Err,
    {
        let enc = t.encoding();
        let p = enc.take(k);
        if Self::dec(p) is Ok {
            let (u, rest) = Self::dec(p)->Ok_0;
            if rest.len() == 0 {
                Self::lemma_prefix(p, enc.skip(k));
                crate::codec::lemma_take_skip(enc, k);
                Self::lemma_round_trip(t, Seq::empty());
                crate::codec::lemma_add_empty_right(enc);
                crate::codec::lemma_add_empty_left(enc.skip(k));
                assert(false);
            }
        }
    }
}

impl AggregateShareResp {
    pub fn encode(&self, bytes: &mut Vec<u8>) -> (r: Result<(), CodecError>)
        ensures
            r is Ok <==> self@.encodable(),
            r is Ok ==> final(bytes)@ == old(bytes)@ + self@.encoding(),
    {
        self.encrypted_agg_share.encode(bytes)
    }

    pub fn decode(bytes: &[u8], pos: &mut usize) -> (r: Result<AggregateShareResp, CodecError>)
        requires
            *old(pos) <= bytes@.len(),
        ensures
            *old(pos) <= *final(pos) <= bytes@.len(),
            match r {
                Ok(t) => AggregateShareRespView::dec(bytes@.skip(*old(pos) as int)) == Ok::<
                    _,
                    CodecError,
                >((t@, bytes@.skip(*final(pos) as int))),
                Err(e) => AggregateShareRespView::dec(bytes@.skip(*old(pos) as int)) == Err::<
                    (AggregateShareRespView, Seq<u8>),
                    CodecError,
                >(e),
            },
    {
        let encrypted_agg_share = crate::hpke::HpkeCiphertext::decode(bytes, pos)?;
        Ok(AggregateShareResp { encrypted_agg_share })
    }
}

} // verus!
