//! The frame model: the six message shapes exchanged on the wire, their
//! mathematical model, and the canonical wire encoding.

use vstd::prelude::*;
use vstd::utf8::encode_utf8;

verus! {

/// One protocol message. `Simple`, `Error` and `Integer` carry a textual
/// line; `Bulk` carries a length-prefixed raw payload; `Null` is the `$-1`
/// sentinel; `Array` is an ordered sequence of frames, recursively.
#[derive(Debug, PartialEq)]
pub enum Frame {
    Simple(String),
    Error(String),
    Integer(u64),
    Bulk(Vec<u8>),
    Null,
    Array(Vec<Frame>),
}

/// The mathematical shape of a frame: text as character sequences, payloads
/// as byte sequences, arrays as sequences of frame models.
#[verifier::ext_equal]
pub enum FrameModel {
    Simple(Seq<char>),
    Error(Seq<char>),
    Integer(u64),
    Bulk(Seq<u8>),
    Null,
    Array(Seq<FrameModel>),
}

pub open spec fn frame_model(f: Frame) -> FrameModel
    decreases f,
{
    match f {
        Frame::Simple(s) => FrameModel::Simple(s@),
        Frame::Error(s) => FrameModel::Error(s@),
        Frame::Integer(n) => FrameModel::Integer(n),
        Frame::Bulk(p) => FrameModel::Bulk(p@),
        Frame::Null => FrameModel::Null,
        Frame::Array(_) => FrameModel::Array(frames_model(f->Array_0@)),
    }
}

/// The models of a sequence of frames, elementwise.
pub open spec fn frames_model(s: Seq<Frame>) -> Seq<FrameModel>
    decreases s,
{
    if s.len() == 0 {
        Seq::empty()
    } else {
        seq![frame_model(s[0])] + frames_model(s.drop_first())
    }
}

impl View for Frame {
    type V = FrameModel;

    open spec fn view(&self) -> FrameModel {
        frame_model(*self)
    }
}

/// The two-byte CR LF line terminator.
pub open spec fn crlf() -> Seq<u8> {
    seq![13u8, 10u8]
}

/// True when the byte is an ASCII decimal digit.
pub open spec fn is_digit(b: u8) -> bool {
    48 <= b <= 57
}

pub open spec fn all_digits(s: Seq<u8>) -> bool {
    forall|i: int| 0 <= i < s.len() ==> is_digit(#[trigger] s[i])
}

/// The number denoted by a sequence of decimal digits, most significant first.
pub open spec fn dec_value(s: Seq<u8>) -> nat
    recommends
        all_digits(s),
    decreases s.len(),
{
    if s.len() == 0 {
        0
    } else {
        (dec_value(s.drop_last()) * 10 + (s.last() - 48)) as nat
    }
}

/// The canonical decimal digits of a number: no sign, no leading zeros.
pub open spec fn dec_rep(n: nat) -> Seq<u8>
    decreases n,
{
    if n < 10 {
        seq![(48 + n) as u8]
    } else {
        dec_rep(n / 10).push((48 + n % 10) as u8)
    }
}

/// True when the two-byte CR LF pair stands at index `i`.
pub open spec fn has_crlf_at(s: Seq<u8>, i: int) -> bool {
    0 <= i && i + 1 < s.len() && s[i] == 13 && s[i + 1] == 10
}

/// True when no CR LF pair occurs anywhere in `s`.
pub open spec fn crlf_free(s: Seq<u8>) -> bool {
    forall|i: int| !has_crlf_at(s, i)
}

/// The canonical wire bytes of a frame (for every variant, arrays included;
/// the executable encoder refuses arrays, the decoder reads them).
pub open spec fn wire(f: FrameModel) -> Seq<u8>
    decreases f,
{
    match f {
        FrameModel::Simple(cs) => seq![43u8] + encode_utf8(cs) + crlf(),
        FrameModel::Error(cs) => seq![45u8] + encode_utf8(cs) + crlf(),
        FrameModel::Integer(n) => seq![58u8] + dec_rep(n as nat) + crlf(),
        FrameModel::Bulk(p) => seq![36u8] + dec_rep(p.len()) + crlf() + p + crlf(),
        FrameModel::Null => seq![36u8, 45u8, 49u8, 13u8, 10u8],
        FrameModel::Array(fs) => seq![42u8] + dec_rep(fs.len()) + crlf() + wire_seq(fs),
    }
}

/// The concatenated wire bytes of a sequence of frames, in order.
pub open spec fn wire_seq(fs: Seq<FrameModel>) -> Seq<u8>
    decreases fs,
{
    if fs.len() == 0 {
        Seq::empty()
    } else {
        wire(fs[0]) + wire_seq(fs.drop_first())
    }
}

/// True when the decoder can reconstruct `f` from its wire bytes: only the
/// read-side variants (`Simple`, `Bulk`, `Null`, `Array`), with simple text
/// whose encoding does not contain the CR LF delimiter.
pub open spec fn decodable(f: FrameModel) -> bool
    decreases f,
{
    match f {
        FrameModel::Simple(cs) => crlf_free(encode_utf8(cs)),
        FrameModel::Error(_) => false,
        FrameModel::Integer(_) => false,
        FrameModel::Bulk(p) => p.len() <= u64::MAX,
        FrameModel::Null => true,
        FrameModel::Array(fs) => fs.len() <= u64::MAX && (forall|i: int|
            0 <= i < fs.len() ==> decodable(#[trigger] fs[i])),
    }
}

pub proof fn lemma_frames_model(s: Seq<Frame>)
    ensures
        frames_model(s).len() == s.len(),
        forall|i: int| 0 <= i < s.len() ==> frames_model(s)[i] == frame_model(#[trigger] s[i]),
    decreases s.len(),
{
    if s.len() > 0 {
        lemma_frames_model(s.drop_first());
        assert forall|i: int| 0 <= i < s.len() implies frames_model(s)[i] == frame_model(s[i]) by {
            if i > 0 {
                assert(frames_model(s)[i] == frames_model(s.drop_first())[i - 1]);
                assert(s.drop_first()[i - 1] == s[i]);
            }
        }
    }
}

pub proof fn lemma_dec_rep_digits(n: nat)
    ensures
        all_digits(dec_rep(n)),
        dec_rep(n).len() >= 1,
        dec_rep(n)[0] != 45,
    decreases n,
{
    if n >= 10 {
        lemma_dec_rep_digits(n / 10);
    }
}

pub proof fn lemma_dec_rep_value(n: nat)
    ensures
        dec_value(dec_rep(n)) == n,
    decreases n,
{
    if n < 10 {
        let s = dec_rep(n);
        assert(s.drop_last() =~= Seq::<u8>::empty());
        assert(s.last() == (48 + n) as u8);
        assert(dec_value(s) == (dec_value(s.drop_last()) * 10 + (s.last() - 48)) as nat);
    } else {
        lemma_dec_rep_value(n / 10);
        let s = dec_rep(n);
        assert(s.drop_last() =~= dec_rep(n / 10));
        assert(s.last() == (48 + n % 10) as u8);
        assert(dec_value(s) == (dec_value(s.drop_last()) * 10 + (s.last() - 48)) as nat);
        assert(dec_value(s) == (n / 10) * 10 + n % 10);
    }
}

/// A digit string's value only grows as more digits follow.
pub proof fn lemma_dec_value_prefix(s: Seq<u8>, k: int)
    requires
        0 <= k <= s.len(),
        all_digits(s),
    ensures
        dec_value(s.take(k)) <= dec_value(s),
    decreases s.len() - k,
{
    if k == s.len() {
        assert(s.take(k) =~= s);
    } else {
        lemma_dec_value_prefix(s, k + 1);
        assert(s.take(k + 1).drop_last() =~= s.take(k));
        assert(dec_value(s.take(k)) <= dec_value(s.take(k + 1)));
    }
}

/// The decimal digits of `n`, most significant first.
pub fn u64_to_dec(n: u64) -> (r: Vec<u8>)
    ensures
        r@ == dec_rep(n as nat),
    decreases n,
{
    if n < 10 {
        let mut v: Vec<u8> = Vec::new();
        v.push(48 + n as u8);
        proof {
            assert(v@ =~= dec_rep(n as nat));
        }
        v
    } else {
        let mut v = u64_to_dec(n / 10);
        v.push(48 + (n % 10) as u8);
        v
    }
}

/// Why a frame could not be serialized.
#[derive(Clone, Copy, Debug, PartialEq, Eq)]
pub enum EncodeError {
    /// Serializing `Array` frames is not supported on the write path.
    ArrayUnsupported,
}

/// Serialize a frame to its canonical wire bytes. `Array` frames are
/// refused with an explicit error, and no bytes are produced for them.
pub fn encode_frame(f: &Frame) -> (r: Result<Vec<u8>, EncodeError>)
    ensures
        match r {
            Ok(v) => !(f@ is Array) && v@ == wire(f@),
            Err(e) => f@ is Array && e == EncodeError::ArrayUnsupported,
        },
{
    match f {
        Frame::Simple(s) => {
            let mut v: Vec<u8> = Vec::new();
            v.push(43);
            v.extend_from_slice(s.as_str().as_bytes());
            v.push(13);
            v.push(10);
            proof {
                assert(v@ =~= wire(f@));
            }
            Ok(v)
        },
        Frame::Error(s) => {
            let mut v: Vec<u8> = Vec::new();
            v.push(45);
            v.extend_from_slice(s.as_str().as_bytes());
            v.push(13);
            v.push(10);
            proof {
                assert(v@ =~= wire(f@));
            }
            Ok(v)
        },
        Frame::Integer(n) => {
            let mut v: Vec<u8> = Vec::new();
            v.push(58);
            let mut digits = u64_to_dec(*n);
            v.append(&mut digits);
            v.push(13);
            v.push(10);
            proof {
                assert(v@ =~= wire(f@));
            }
            Ok(v)
        },
        Frame::Bulk(p) => {
            let mut v: Vec<u8> = Vec::new();
            v.push(36);
            let mut digits = u64_to_dec(p.len() as u64);
            v.append(&mut digits);
            v.push(13);
            v.push(10);
            v.extend_from_slice(p.as_slice());
            v.push(13);
            v.push(10);
            proof {
                assert(v@ =~= wire(f@));
            }
            Ok(v)
        },
        Frame::Null => {
            let mut v: Vec<u8> = Vec::new();
            v.push(36);
            v.push(45);
            v.push(49);
            v.push(13);
            v.push(10);
            proof {
                assert(v@ =~= wire(f@));
            }
            Ok(v)
        },
        Frame::Array(_) => Err(EncodeError::ArrayUnsupported),
    }
}

} // verus!
