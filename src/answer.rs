//! Answers: the accumulator after a request and, when the request failed,
//! a diagnostic text, each in a frame of its own inside one container frame.

use vstd::prelude::*;
use vstd::utf8::{decode_utf8, encode_utf8, encode_utf8_decode_utf8, encode_utf8_valid_utf8, valid_utf8};
use crate::operation::frame_of;
use crate::tlv::{
    frame_bytes, frames, lemma_frames_cons, lemma_frames_empty, parse_frame, Tlv, TlvError,
    TlvIterator, TlvType,
};

verus! {

/// Why an answer or one of its parts could not be read.
#[derive(Debug, Clone, PartialEq, Eq)]
pub enum TCPLibError {
    /// A frame that could not be read at all.
    ParseTlvError(TlvError),
    /// A diagnostic whose bytes are not UTF-8.
    ParseStringError,
    /// A frame that does not hold what was asked for.
    Generic,
}

/// Where the diagnostic frame stands relative to the accumulator frame.
#[derive(Debug, Clone, Copy, PartialEq, Eq, Structural)]
pub enum AnswerOrder {
    MessageFirst,
    MessageLast,
}

/// The accumulator's value.
#[derive(Debug, Clone, Copy, PartialEq, Eq, Structural)]
pub struct Numberi64(pub i64);

/// A diagnostic text.
#[derive(Debug, Clone, PartialEq, Eq)]
pub struct InvalidOperation(String);

/// One answer: the accumulator and, for a failed request, a diagnostic.
#[derive(Debug, Clone, PartialEq, Eq)]
pub struct Answer {
    pub acc: Numberi64,
    pub message: Option<InvalidOperation>,
}

/// The eight big-endian bytes of a signed 64-bit integer (two's complement).
pub open spec fn be_bytes(v: i64) -> Seq<u8> {
    let u = v as u64;
    seq![
        (u >> 56u64) as u8,
        (u >> 48u64) as u8,
        (u >> 40u64) as u8,
        (u >> 32u64) as u8,
        (u >> 24u64) as u8,
        (u >> 16u64) as u8,
        (u >> 8u64) as u8,
        u as u8,
    ]
}

/// The signed 64-bit integer whose big-endian bytes are `b`.
pub open spec fn be_value(b: Seq<u8>) -> i64 {
    ((b[0] as u64) << 56u64 | (b[1] as u64) << 48u64 | (b[2] as u64) << 40u64 | (b[3] as u64)
        << 32u64 | (b[4] as u64) << 24u64 | (b[5] as u64) << 16u64 | (b[6] as u64) << 8u64 | (
    b[7] as u64)) as i64
}

/// The frame of an accumulator value.
pub open spec fn acc_frame(v: i64) -> Seq<u8> {
    frame_bytes(TlvType::Numi64, be_bytes(v))
}

/// The frame of a diagnostic text.
pub open spec fn message_frame(m: Seq<char>) -> Seq<u8> {
    frame_bytes(TlvType::Invalid, encode_utf8(m))
}

/// Whether a diagnostic leaves room for the accumulator in one container.
pub open spec fn message_fits(m: Option<Seq<char>>) -> bool {
    m matches Some(t) ==> encode_utf8(t).len() <= 243
}

/// The container's payload: the accumulator frame and, if there is a
/// diagnostic, its frame, in the given order.
pub open spec fn answer_payload(v: i64, m: Option<Seq<char>>, order: AnswerOrder) -> Seq<u8> {
    match m {
        None => acc_frame(v),
        Some(t) => match order {
            AnswerOrder::MessageFirst => message_frame(t) + acc_frame(v),
            AnswerOrder::MessageLast => acc_frame(v) + message_frame(t),
        },
    }
}

/// The bytes of an answer.
pub open spec fn encode_answer(v: i64, m: Option<Seq<char>>, order: AnswerOrder) -> Seq<u8> {
    frame_bytes(TlvType::Answer, answer_payload(v, m, order))
}

/// The payload of the first frame of the given tag.
pub open spec fn first_payload(fs: Seq<(TlvType, Seq<u8>)>, tag: TlvType) -> Option<Seq<u8>>
    decreases fs.len(),
{
    if fs.len() == 0 {
        None
    } else {
        match first_payload(fs.drop_last(), tag) {
            Some(d) => Some(d),
            None => if fs.last().0 == tag {
                Some(fs.last().1)
            } else {
                None
            },
        }
    }
}

/// What a container frame of the given tag and payload holds: the first
/// accumulator frame, which must have eight bytes, and the first diagnostic
/// frame, if any, which must be non-empty UTF-8. Other frames are ignored.
pub open spec fn decode_answer(tag: TlvType, data: Seq<u8>) -> Result<
    (i64, Option<Seq<char>>),
    TCPLibError,
> {
    let fs = frames(data);
    if tag != TlvType::Answer || data.len() == 0 {
        Err(TCPLibError::Generic)
    } else {
        match first_payload(fs, TlvType::Numi64) {
            None => Err(TCPLibError::Generic),
            Some(a) => if a.len() != 8 {
                Err(TCPLibError::Generic)
            } else {
                match first_payload(fs, TlvType::Invalid) {
                    None => Ok((be_value(a), None)),
                    Some(m) => if m.len() == 0 {
                        Err(TCPLibError::Generic)
                    } else if !valid_utf8(m) {
                        Err(TCPLibError::ParseStringError)
                    } else {
                        Ok((be_value(a), Some(decode_utf8(m))))
                    },
                }
            },
        }
    }
}

proof fn lemma_be_value_of_bytes(v: i64)
    ensures
        be_value(be_bytes(v)) == v,
{
    let u = v as u64;
    assert(((((u >> 56u64) as u8) as u64) << 56u64 | (((u >> 48u64) as u8) as u64) << 48u64 | (((u
        >> 40u64) as u8) as u64) << 40u64 | (((u >> 32u64) as u8) as u64) << 32u64 | (((u
        >> 24u64) as u8) as u64) << 24u64 | (((u >> 16u64) as u8) as u64) << 16u64 | (((u
        >> 8u64) as u8) as u64) << 8u64 | ((u as u8) as u64)) == u) by (bit_vector);
    assert((u as i64) == v) by (bit_vector)
        requires
            u == v as u64,
    ;
}

proof fn lemma_bytes_of_be_value(b: Seq<u8>)
    requires
        b.len() == 8,
    ensures
        be_bytes(be_value(b)) == b,
{
    let (b0, b1, b2, b3, b4, b5, b6, b7) = (b[0], b[1], b[2], b[3], b[4], b[5], b[6], b[7]);
    let u: u64 = (b0 as u64) << 56u64 | (b1 as u64) << 48u64 | (b2 as u64) << 40u64 | (b3 as u64)
        << 32u64 | (b4 as u64) << 24u64 | (b5 as u64) << 16u64 | (b6 as u64) << 8u64 | (b7 as u64);
    assert(((u as i64) as u64) == u) by (bit_vector);
    assert((u >> 56u64) as u8 == b0 && (u >> 48u64) as u8 == b1 && (u >> 40u64) as u8 == b2 && (u
        >> 32u64) as u8 == b3 && (u >> 24u64) as u8 == b4 && (u >> 16u64) as u8 == b5 && (u
        >> 8u64) as u8 == b6 && u as u8 == b7) by (bit_vector)
        requires
            u == (b0 as u64) << 56u64 | (b1 as u64) << 48u64 | (b2 as u64) << 40u64 | (b3 as u64)
                << 32u64 | (b4 as u64) << 24u64 | (b5 as u64) << 16u64 | (b6 as u64) << 8u64 | (
            b7 as u64),
    ;
    assert(be_bytes(be_value(b)) =~= b);
}

/// Relies on `std::str::from_utf8`: the bytes are accepted exactly when they
/// are valid UTF-8, and then stand for the characters they encode.
#[verifier::external_body]
fn text_from_utf8(b: &[u8]) -> (r: Option<String>)
    ensures
        r is Some <==> valid_utf8(b@),
        r matches Some(s) ==> s@ == decode_utf8(b@),
{
    match std::str::from_utf8(b) {
        Ok(s) => Some(s.to_string()),
        Err(_) => None,
    }
}

impl From<i64> for Numberi64 {
    fn from(v: i64) -> (r: Self) {
        Numberi64(v)
    }
}

impl vstd::std_specs::convert::FromSpecImpl<i64> for Numberi64 {
    open spec fn obeys_from_spec() -> bool {
        true
    }

    open spec fn from_spec(v: i64) -> Self {
        Numberi64(v)
    }
}

impl Numberi64 {
    /// The accumulator frame: eight big-endian bytes.
    pub fn encode(self) -> (r: Vec<u8>)
        ensures
            r@ == acc_frame(self.0),
    {
        let u = self.0 as u64;
        let bytes: [u8; 8] = [
            (u >> 56u64) as u8,
            (u >> 48u64) as u8,
            (u >> 40u64) as u8,
            (u >> 32u64) as u8,
            (u >> 24u64) as u8,
            (u >> 16u64) as u8,
            (u >> 8u64) as u8,
            u as u8,
        ];
        assert(bytes@ =~= be_bytes(self.0));
        frame_of(TlvType::Numi64, bytes.as_slice())
    }

    /// The value of an accumulator frame; `Generic` for a frame of another
    /// tag or of a payload other than eight bytes.
    pub fn decode(tlv: &Tlv) -> (r: Result<Numberi64, TCPLibError>)
        requires
            tlv.wf(),
        ensures
            r is Ok <==> tlv.tag == TlvType::Numi64 && tlv.data@.len() == 8,
            r matches Ok(n) ==> n.0 == be_value(tlv.data@) && be_bytes(n.0) == tlv.data@,
            r matches Err(e) ==> e == TCPLibError::Generic,
    {
        if tlv.tag == TlvType::Numi64 && tlv.length == 8 {
            let b = tlv.data;
            let u: u64 = (b[0] as u64) << 56u64 | (b[1] as u64) << 48u64 | (b[2] as u64) << 40u64
                | (b[3] as u64) << 32u64 | (b[4] as u64) << 24u64 | (b[5] as u64) << 16u64 | (
            b[6] as u64) << 8u64 | (b[7] as u64);
            proof {
                lemma_bytes_of_be_value(b@);
            }
            Ok(Numberi64(u as i64))
        } else {
            Err(TCPLibError::Generic)
        }
    }
}

impl View for InvalidOperation {
    type V = Seq<char>;

    closed spec fn view(&self) -> Seq<char> {
        self.0@
    }
}

impl InvalidOperation {
    pub fn new(text: String) -> (r: Self)
        ensures
            r@ == text@,
    {
        InvalidOperation(text)
    }

    pub fn as_str(&self) -> (r: &str)
        ensures
            r@ == self@,
    {
        self.0.as_str()
    }

    /// The diagnostic frame: the text's UTF-8 bytes.
    pub fn encode(self) -> (r: Vec<u8>)
        requires
            encode_utf8(self@).len() <= 255,
        ensures
            r@ == message_frame(self@),
    {
        frame_of(TlvType::Invalid, self.0.as_str().as_bytes())
    }

    /// The text of a diagnostic frame: `Generic` for a frame of another tag
    /// or an empty one, `ParseStringError` for bytes that are not UTF-8.
    pub fn decode(tlv: &Tlv) -> (r: Result<InvalidOperation, TCPLibError>)
        requires
            tlv.wf(),
        ensures
            tlv.tag != TlvType::Invalid || tlv.data@.len() == 0 ==> r == Err::<
                InvalidOperation,
                TCPLibError,
            >(TCPLibError::Generic),
            tlv.tag == TlvType::Invalid && tlv.data@.len() > 0 ==> {
                &&& valid_utf8(tlv.data@) ==> (r matches Ok(m) && m@ == decode_utf8(tlv.data@))
                &&& !valid_utf8(tlv.data@) ==> r == Err::<InvalidOperation, TCPLibError>(
                    TCPLibError::ParseStringError,
                )
            },
    {
        if tlv.tag == TlvType::Invalid && tlv.length > 0 {
            match text_from_utf8(tlv.data) {
                Some(s) => Ok(InvalidOperation(s)),
                None => Err(TCPLibError::ParseStringError),
            }
        } else {
            Err(TCPLibError::Generic)
        }
    }
}

proof fn lemma_encode_utf8_nonempty(t: Seq<char>)
    requires
        t.len() > 0,
    ensures
        encode_utf8(t).len() > 0,
{
}

/// Encoding an answer with either order and reading it back gives the
/// answer: its frame reads back whole, and its payload as the accumulator and
/// the diagnostic.
pub proof fn lemma_answer_round_trip(v: i64, m: Option<Seq<char>>, order: AnswerOrder)
    requires
        m matches Some(t) ==> t.len() > 0 && encode_utf8(t).len() <= 243,
    ensures
        parse_frame(encode_answer(v, m, order)) == Ok::<(TlvType, Seq<u8>), TlvError>(
            (TlvType::Answer, answer_payload(v, m, order)),
        ),
        decode_answer(TlvType::Answer, answer_payload(v, m, order)) == Ok::<
            (i64, Option<Seq<char>>),
            TCPLibError,
        >((v, m)),
{
    let e = Seq::<u8>::empty();
    let p = answer_payload(v, m, order);
    lemma_be_value_of_bytes(v);
    lemma_frames_empty();
    assert(acc_frame(v) =~= acc_frame(v) + e);
    lemma_frames_cons(TlvType::Numi64, be_bytes(v), e);
    assert(frames(acc_frame(v)) =~= seq![(TlvType::Numi64, be_bytes(v))]);
    assert(encode_answer(v, m, order) =~= encode_answer(v, m, order) + e);
    match m {
        None => {
            reveal_with_fuel(first_payload, 2);
        },
        Some(t) => {
            lemma_encode_utf8_nonempty(t);
            encode_utf8_valid_utf8(t);
            encode_utf8_decode_utf8(t);
            let mf = (TlvType::Invalid, encode_utf8(t));
            let af = (TlvType::Numi64, be_bytes(v));
            assert(message_frame(t) =~= message_frame(t) + e);
            lemma_frames_cons(TlvType::Invalid, encode_utf8(t), e);
            assert(frames(message_frame(t)) =~= seq![mf]);
            match order {
                AnswerOrder::MessageFirst => {
                    lemma_frames_cons(TlvType::Invalid, encode_utf8(t), acc_frame(v));
                    assert(frames(p) =~= seq![mf, af]);
                    assert(seq![mf, af].drop_last() =~= seq![mf]);
                    assert(seq![mf].drop_last() =~= Seq::<(TlvType, Seq<u8>)>::empty());
                },
                AnswerOrder::MessageLast => {
                    lemma_frames_cons(TlvType::Numi64, be_bytes(v), message_frame(t));
                    assert(frames(p) =~= seq![af, mf]);
                    assert(seq![af, mf].drop_last() =~= seq![af]);
                    assert(seq![af].drop_last() =~= Seq::<(TlvType, Seq<u8>)>::empty());
                },
            }
            reveal_with_fuel(first_payload, 3);
        },
    }
    lemma_frames_cons(TlvType::Answer, p, e);
}

/// The payload of an optional borrowed byte slice.
pub open spec fn opt_bytes(o: Option<&[u8]>) -> Option<Seq<u8>> {
    match o {
        Some(b) => Some(b@),
        None => None,
    }
}

proof fn lemma_first_payload_push(fs: Seq<(TlvType, Seq<u8>)>, f: (TlvType, Seq<u8>), tag: TlvType)
    ensures
        first_payload(fs.push(f), tag) == match first_payload(fs, tag) {
            Some(d) => Some(d),
            None => if f.0 == tag {
                Some(f.1)
            } else {
                None
            },
        },
{
    assert(fs.push(f).drop_last() =~= fs);
}

impl View for Answer {
    type V = (i64, Option<Seq<char>>);

    open spec fn view(&self) -> (i64, Option<Seq<char>>) {
        (
            self.acc.0,
            match self.message {
                Some(m) => Some(m@),
                None => None,
            },
        )
    }
}

impl Answer {
    /// An answer with the given accumulator and diagnostic.
    pub fn new(acc: i64, message: Option<String>) -> (r: Self)
        ensures
            r@ == (acc, match message {
                Some(m) => Some(m@),
                None => None,
            }),
    {
        let message = match message {
            Some(m) => Some(InvalidOperation::new(m)),
            None => None,
        };
        Answer { acc: Numberi64(acc), message }
    }

    /// The answer's container frame, the diagnostic frame (if any) placed as
    /// `order` says.
    pub fn encode(self, order: AnswerOrder) -> (r: Vec<u8>)
        requires
            message_fits(self@.1),
        ensures
            r@ == encode_answer(self@.0, self@.1, order),
    {
        let ghost v = self@;
        let mut payload: Vec<u8> = Vec::new();
        let mut acc = self.acc.encode();
        match self.message {
            None => payload.append(&mut acc),
            Some(m) => {
                let mut text = m.encode();
                match order {
                    AnswerOrder::MessageFirst => {
                        payload.append(&mut text);
                        payload.append(&mut acc);
                    },
                    AnswerOrder::MessageLast => {
                        payload.append(&mut acc);
                        payload.append(&mut text);
                    },
                }
            },
        }
        assert(payload@ =~= answer_payload(v.0, v.1, order));
        frame_of(TlvType::Answer, payload.as_slice())
    }

    /// The answer that a container frame holds.
    pub fn decode(tlv: &Tlv) -> (r: Result<Answer, TCPLibError>)
        requires
            tlv.wf(),
        ensures
            match decode_answer(tlv.tag, tlv.data@) {
                Ok(v) => r matches Ok(a) && a@ == v,
                Err(e) => r == Err::<Answer, TCPLibError>(e),
            },
    {
        if !(tlv.tag == TlvType::Answer && tlv.length > 0) {
            return Err(TCPLibError::Generic);
        }
        let mut it = TlvIterator::process(tlv.data);
        let mut acc: Option<&[u8]> = None;
        let mut msg: Option<&[u8]> = None;
        let ghost mut seen: Seq<(TlvType, Seq<u8>)> = seq![];
        let mut done = false;
        while !done
            invariant
                it.wf(),
                frames(tlv.data@) == seen + frames(it@),
                opt_bytes(acc) == first_payload(seen, TlvType::Numi64),
                opt_bytes(msg) == first_payload(seen, TlvType::Invalid),
                acc matches Some(a) ==> a@.len() <= 255,
                msg matches Some(m) ==> m@.len() <= 255,
                done ==> frames(it@) == Seq::<(TlvType, Seq<u8>)>::empty(),
            decreases it@.len() + if done {
                0int
            } else {
                1int
            },
        {
            let ghost before = it@;
            match it.next() {
                Some(f) => {
                    proof {
                        lemma_first_payload_push(seen, f@, TlvType::Numi64);
                        lemma_first_payload_push(seen, f@, TlvType::Invalid);
                        assert(frames(before) == seq![f@] + frames(it@));
                        assert(seen + frames(before) =~= seen.push(f@) + frames(it@));
                        seen = seen.push(f@);
                    }
                    if f.tag == TlvType::Numi64 && acc.is_none() {
                        acc = Some(f.data);
                    } else if f.tag == TlvType::Invalid && msg.is_none() {
                        msg = Some(f.data);
                    }
                },
                None => {
                    assert(seen + frames(it@) =~= seen);
                    done = true;
                },
            }
        }
        assert(seen == frames(tlv.data@));
        let value = match acc {
            Some(a) => {
                let frame = Tlv { tag: TlvType::Numi64, length: a.len() as u8, data: a };
                match Numberi64::decode(&frame) {
                    Ok(n) => n,
                    Err(e) => return Err(e),
                }
            },
            None => return Err(TCPLibError::Generic),
        };
        let message = match msg {
            Some(m) => {
                let frame = Tlv { tag: TlvType::Invalid, length: m.len() as u8, data: m };
                match InvalidOperation::decode(&frame) {
                    Ok(t) => Some(t),
                    Err(e) => return Err(e),
                }
            },
            None => None,
        };
        Ok(Answer { acc: value, message })
    }
}

} // verus!
