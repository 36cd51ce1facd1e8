//! Tag-length-value frames: one tag byte, one length byte, then that many
//! payload bytes.

use vstd::prelude::*;
use vstd::slice::slice_subrange;

verus! {

/// The registered frame tags.
#[derive(Debug, Clone, Copy, PartialEq, Eq, Structural)]
pub enum TlvType {
    Sum,
    Sub,
    Mul,
    Div,
    Rem,
    Fact,
    Answer,
    Invalid,
    Numi64,
}

/// Why a frame could not be built or read.
#[derive(Debug, Clone, Copy, PartialEq, Eq, Structural)]
pub enum TlvError {
    /// The first byte is not a registered tag.
    TagUnknown,
    /// Fewer bytes than the header and the announced payload need.
    WrongFormat,
    /// A payload longer than one length byte can announce.
    ExcessiveLength,
}

/// The largest payload a frame can carry.
pub const MAX_PAYLOAD: usize = 255;

/// The byte that stands for a tag on the wire.
pub open spec fn tag_byte(t: TlvType) -> u8 {
    match t {
        TlvType::Sum => 1,
        TlvType::Sub => 2,
        TlvType::Mul => 3,
        TlvType::Div => 4,
        TlvType::Rem => 5,
        TlvType::Fact => 6,
        TlvType::Answer => 10,
        TlvType::Invalid => 11,
        TlvType::Numi64 => 16,
    }
}

/// The tag that a byte stands for, if it is registered.
pub open spec fn tag_of(b: u8) -> Option<TlvType> {
    if b == 1 {
        Some(TlvType::Sum)
    } else if b == 2 {
        Some(TlvType::Sub)
    } else if b == 3 {
        Some(TlvType::Mul)
    } else if b == 4 {
        Some(TlvType::Div)
    } else if b == 5 {
        Some(TlvType::Rem)
    } else if b == 6 {
        Some(TlvType::Fact)
    } else if b == 10 {
        Some(TlvType::Answer)
    } else if b == 11 {
        Some(TlvType::Invalid)
    } else if b == 16 {
        Some(TlvType::Numi64)
    } else {
        None
    }
}

/// Whether a byte is one of the registered tags.
pub open spec fn is_registered(b: u8) -> bool {
    b == 1 || b == 2 || b == 3 || b == 4 || b == 5 || b == 6 || b == 10 || b == 11 || b == 16
}

/// The bytes of a frame with the given tag and payload.
pub open spec fn frame_bytes(tag: TlvType, data: Seq<u8>) -> Seq<u8> {
    seq![tag_byte(tag), data.len() as u8] + data
}

/// What reading one frame at the start of `bytes` yields: its tag and
/// payload. Too few bytes for the header and the announced payload is a
/// format error whatever the first byte is; only then is the tag looked up.
pub open spec fn parse_frame(bytes: Seq<u8>) -> Result<(TlvType, Seq<u8>), TlvError> {
    if bytes.len() < 2 || bytes.len() < 2 + bytes[1] {
        Err(TlvError::WrongFormat)
    } else {
        match tag_of(bytes[0]) {
            None => Err(TlvError::TagUnknown),
            Some(t) => Ok((t, bytes.subrange(2, 2 + bytes[1]))),
        }
    }
}

/// The frames that a sequential reader yields from `bytes`: one after the
/// other from the start, up to the first place where no frame can be read.
pub open spec fn frames(bytes: Seq<u8>) -> Seq<(TlvType, Seq<u8>)>
    decreases bytes.len(),
{
    match parse_frame(bytes) {
        Ok((t, d)) => if 2 + d.len() <= bytes.len() {
            seq![(t, d)] + frames(bytes.subrange(2 + d.len() as int, bytes.len() as int))
        } else {
            seq![]
        },
        Err(_) => seq![],
    }
}

/// Reading a frame that is long enough for its announced payload fails with
/// `TagUnknown` whenever its first byte is not a registered tag.
pub proof fn lemma_unknown_tag(bytes: Seq<u8>)
    requires
        bytes.len() >= 2,
        bytes.len() >= 2 + bytes[1],
        !is_registered(bytes[0]),
    ensures
        parse_frame(bytes) == Err::<(TlvType, Seq<u8>), TlvError>(TlvError::TagUnknown),
{
}

/// A frame followed by more bytes reads back as that frame, then whatever
/// the rest reads as.
pub proof fn lemma_frames_cons(t: TlvType, d: Seq<u8>, rest: Seq<u8>)
    requires
        d.len() <= 255,
    ensures
        parse_frame(frame_bytes(t, d) + rest) == Ok::<(TlvType, Seq<u8>), TlvError>((t, d)),
        frames(frame_bytes(t, d) + rest) == seq![(t, d)] + frames(rest),
{
    let b = frame_bytes(t, d) + rest;
    assert(b.subrange(2, 2 + b[1]) =~= d);
    assert(b.subrange(2 + d.len() as int, b.len() as int) =~= rest);
}

/// No frame can be read from no bytes.
pub proof fn lemma_frames_empty()
    ensures
        frames(Seq::<u8>::empty()) == Seq::<(TlvType, Seq<u8>)>::empty(),
{
}

impl TlvType {
    /// The tag that `b` stands for; `TagUnknown` when it stands for none.
    pub fn from_u8(b: u8) -> (r: Result<TlvType, TlvError>)
        ensures
            match tag_of(b) {
                Some(t) => r == Ok::<TlvType, TlvError>(t),
                None => r == Err::<TlvType, TlvError>(TlvError::TagUnknown),
            },
    {
        match b {
            1 => Ok(TlvType::Sum),
            2 => Ok(TlvType::Sub),
            3 => Ok(TlvType::Mul),
            4 => Ok(TlvType::Div),
            5 => Ok(TlvType::Rem),
            6 => Ok(TlvType::Fact),
            10 => Ok(TlvType::Answer),
            11 => Ok(TlvType::Invalid),
            16 => Ok(TlvType::Numi64),
            _ => Err(TlvError::TagUnknown),
        }
    }

    /// The byte that stands for this tag.
    pub fn to_u8(self) -> (r: u8)
        ensures
            r == tag_byte(self),
    {
        match self {
            TlvType::Sum => 1,
            TlvType::Sub => 2,
            TlvType::Mul => 3,
            TlvType::Div => 4,
            TlvType::Rem => 5,
            TlvType::Fact => 6,
            TlvType::Answer => 10,
            TlvType::Invalid => 11,
            TlvType::Numi64 => 16,
        }
    }
}

/// One frame, its payload borrowed from the buffer it was read from or
/// built for.
#[derive(Debug, PartialEq)]
pub struct Tlv<'a> {
    pub tag: TlvType,
    pub length: u8,
    pub data: &'a [u8],
}

impl<'a> View for Tlv<'a> {
    type V = (TlvType, Seq<u8>);

    open spec fn view(&self) -> (TlvType, Seq<u8>) {
        (self.tag, self.data@)
    }
}

impl<'a> Tlv<'a> {
    /// The length byte announces the payload's size.
    pub open spec fn wf(&self) -> bool {
        self.length == self.data@.len()
    }

    /// A frame of the given tag around `data`; `ExcessiveLength` when `data`
    /// is too long for one length byte.
    pub fn new(tag: TlvType, data: &'a [u8]) -> (r: Result<Self, TlvError>)
        ensures
            r is Ok <==> data@.len() <= 255,
            r matches Ok(t) ==> t@ == (tag, data@) && t.wf(),
            r matches Err(e) ==> e == TlvError::ExcessiveLength,
    {
        if data.len() > MAX_PAYLOAD {
            Err(TlvError::ExcessiveLength)
        } else {
            Ok(Tlv { tag, length: data.len() as u8, data })
        }
    }

    /// The frame's bytes: tag byte, length byte, payload.
    pub fn encode(self) -> (r: Vec<u8>)
        ensures
            r@ == seq![tag_byte(self.tag), self.length] + self.data@,
            self.wf() ==> r@ == frame_bytes(self.tag, self.data@),
    {
        let mut out: Vec<u8> = Vec::new();
        out.push(self.tag.to_u8());
        out.push(self.length);
        let n = self.data.len();
        let mut i: usize = 0;
        while i < n
            invariant
                n == self.data@.len(),
                i <= n,
                out@ == seq![tag_byte(self.tag), self.length] + self.data@.subrange(0, i as int),
            decreases n - i,
        {
            out.push(self.data[i]);
            i = i + 1;
            assert(self.data@.subrange(0, i as int) =~= self.data@.subrange(0, i - 1) + seq![
                self.data@[i - 1],
            ]);
        }
        assert(self.data@.subrange(0, n as int) =~= self.data@);
        out
    }

    /// Reads the frame at the start of `bytes`. Bytes past its payload are
    /// left alone.
    pub fn decode(bytes: &'a [u8]) -> (r: Result<Tlv<'a>, TlvError>)
        ensures
            r matches Ok(t) ==> t.wf() && parse_frame(bytes@) == Ok::<
                (TlvType, Seq<u8>),
                TlvError,
            >(t@),
            r matches Err(e) ==> parse_frame(bytes@) == Err::<(TlvType, Seq<u8>), TlvError>(e),
    {
        if bytes.len() < 2 {
            return Err(TlvError::WrongFormat);
        }
        let length = bytes[1];
        if bytes.len() < 2 + length as usize {
            return Err(TlvError::WrongFormat);
        }
        let tag = match TlvType::from_u8(bytes[0]) {
            Ok(t) => t,
            Err(e) => return Err(e),
        };
        let data = slice_subrange(bytes, 2, 2 + length as usize);
        Ok(Tlv { tag, length, data })
    }
}

/// Reads frames one after the other from a buffer, and stops at the first
/// place where no frame can be read.
pub struct TlvIterator<'a> {
    buf: &'a [u8],
    index: usize,
}

impl<'a> View for TlvIterator<'a> {
    type V = Seq<u8>;

    /// The bytes not read yet.
    closed spec fn view(&self) -> Seq<u8> {
        self.buf@.subrange(self.index as int, self.buf@.len() as int)
    }
}

impl<'a> TlvIterator<'a> {
    /// The read position stays within the buffer.
    pub closed spec fn wf(&self) -> bool {
        self.index <= self.buf@.len()
    }

    /// A reader at the start of `buf`.
    pub fn process(buf: &'a [u8]) -> (r: Self)
        ensures
            r.wf(),
            r@ == buf@,
    {
        let r = TlvIterator { buf, index: 0 };
        assert(r@ =~= buf@);
        r
    }

    /// The next frame, or `None` once no frame can be read where the reader
    /// stands; the reader then stays where it is.
    pub fn next(&mut self) -> (r: Option<Tlv<'a>>)
        requires
            old(self).wf(),
        ensures
            final(self).wf(),
            match parse_frame(old(self)@) {
                Ok((t, d)) => r matches Some(f) && f@ == (t, d) && f.wf() && 2 + d.len()
                    <= old(self)@.len() && final(self)@ == old(self)@.subrange(
                    2 + d.len() as int,
                    old(self)@.len() as int,
                ),
                Err(_) => r is None && final(self)@ == old(self)@,
            },
    {
        let rest = slice_subrange(self.buf, self.index, self.buf.len());
        match Tlv::decode(rest) {
            Ok(tlv) => {
                assert(self.buf@.subrange(self.index + 2 + tlv.length, self.buf@.len() as int)
                    =~= rest@.subrange(2 + tlv.length, rest@.len() as int));
                self.index = self.index + 2 + tlv.length as usize;
                Some(tlv)
            },
            Err(_) => None,
        }
    }
}

} // verus!
