//! The frame decoder: a stateless, restartable parse of one frame from the
//! front of a byte buffer, distinguishing "complete frame", "not enough data
//! yet" and "malformed data".
//!
//! `spec_parse` is the mathematical decoder; the executable `parse` is
//! verified to agree with it in every case.

use vstd::prelude::*;
use vstd::slice::{slice_index_get, slice_subrange, slice_to_vec};
use vstd::utf8::{encode_utf8, decode_utf8, valid_utf8, encode_utf8_valid_utf8,
    encode_utf8_decode_utf8};
use crate::frame::{Frame, FrameModel, frame_model, frames_model, all_digits, dec_value, lemma_dec_value_prefix, lemma_frames_model};

verus! {

/// Why a buffer was rejected as malformed.
#[derive(Clone, Copy, Debug, PartialEq, Eq)]
pub enum ProtocolError {
    /// The leading marker byte is none of `+`, `$`, `*`.
    InvalidMarker(u8),
    /// A length or count header line is not a decimal number that fits 64 bits.
    InvalidLength,
    /// A simple line is not valid UTF-8.
    InvalidText,
}

/// Outcome of decoding one frame starting at a position: the frame model and
/// the position just past it, or "not enough data yet", or a protocol error.
#[verifier::ext_equal]
pub enum SpecParse {
    Found(FrameModel, int),
    Incomplete,
    Malformed(ProtocolError),
}

/// Outcome of decoding a run of consecutive frames.
#[verifier::ext_equal]
pub enum SpecElems {
    EFound(Seq<FrameModel>, int),
    EIncomplete,
    EMalformed(ProtocolError),
}

/// Position of the first CR LF pair at or after `from`, if any.
pub open spec fn find_crlf(s: Seq<u8>, from: int) -> Option<int>
    decreases s.len() - from,
{
    if from < 0 || from + 1 >= s.len() {
        None
    } else if s[from] == 13 && s[from + 1] == 10 {
        Some(from)
    } else {
        find_crlf(s, from + 1)
    }
}

/// True when a header line is a valid non-negative length or count:
/// at least one digit, digits only, and a value that fits in 64 bits.
pub open spec fn valid_len_line(line: Seq<u8>) -> bool {
    line.len() > 0 && all_digits(line) && dec_value(line) <= u64::MAX
}

/// True when a `$` header line is the literal `-1` null sentinel.
pub open spec fn is_null_line(line: Seq<u8>) -> bool {
    line.len() == 2 && line[0] == 45 && line[1] == 49
}

/// Decode one frame from `s` starting at position `p`.
pub open spec fn spec_parse(s: Seq<u8>, p: int) -> SpecParse
    decreases s.len() - p, 0int, 0int,
{
    if p < 0 || p >= s.len() {
        SpecParse::Incomplete
    } else if s[p] == 43 {
        match find_crlf(s, p + 1) {
            None => SpecParse::Incomplete,
            Some(i) => {
                let line = s.subrange(p + 1, i);
                if valid_utf8(line) {
                    SpecParse::Found(FrameModel::Simple(decode_utf8(line)), i + 2)
                } else {
                    SpecParse::Malformed(ProtocolError::InvalidText)
                }
            },
        }
    } else if s[p] == 36 {
        match find_crlf(s, p + 1) {
            None => SpecParse::Incomplete,
            Some(i) => {
                let line = s.subrange(p + 1, i);
                if is_null_line(line) {
                    SpecParse::Found(FrameModel::Null, i + 2)
                } else if !valid_len_line(line) {
                    SpecParse::Malformed(ProtocolError::InvalidLength)
                } else {
                    let len = dec_value(line) as int;
                    if s.len() < i + 2 + len + 2 {
                        SpecParse::Incomplete
                    } else {
                        SpecParse::Found(
                            FrameModel::Bulk(s.subrange(i + 2, i + 2 + len)),
                            i + 2 + len + 2,
                        )
                    }
                }
            },
        }
    } else if s[p] == 42 {
        match find_crlf(s, p + 1) {
            None => SpecParse::Incomplete,
            Some(i) => {
                if !(p + 1 <= i && i + 1 < s.len()) {
                    // never taken: a found CR LF position is in range
                    SpecParse::Incomplete
                } else {
                    let line = s.subrange(p + 1, i);
                    if !valid_len_line(line) {
                        SpecParse::Malformed(ProtocolError::InvalidLength)
                    } else {
                        match spec_parse_elems(s, i + 2, dec_value(line) as int) {
                            SpecElems::EFound(fs, end) => SpecParse::Found(
                                FrameModel::Array(fs),
                                end,
                            ),
                            SpecElems::EIncomplete => SpecParse::Incomplete,
                            SpecElems::EMalformed(e) => SpecParse::Malformed(e),
                        }
                    }
                }
            },
        }
    } else {
        SpecParse::Malformed(ProtocolError::InvalidMarker(s[p]))
    }
}

/// Decode `n` consecutive frames from `s` starting at position `p`.
pub open spec fn spec_parse_elems(s: Seq<u8>, p: int, n: int) -> SpecElems
    decreases s.len() - p, n, 1int,
{
    if p < 0 || p > s.len() {
        // never reached from spec_parse
        SpecElems::EIncomplete
    } else if n <= 0 {
        SpecElems::EFound(Seq::empty(), p)
    } else {
        match spec_parse(s, p) {
            SpecParse::Incomplete => SpecElems::EIncomplete,
            SpecParse::Malformed(e) => SpecElems::EMalformed(e),
            SpecParse::Found(f, end) => {
                if end <= p || end > s.len() {
                    // never taken: a found frame consumes at least one byte
                    SpecElems::EIncomplete
                } else {
                    match spec_parse_elems(s, end, n - 1) {
                        SpecElems::EFound(fs, end2) => SpecElems::EFound(seq![f] + fs, end2),
                        other => other,
                    }
                }
            },
        }
    }
}

/// A found CR LF position lies in range, carries the pair, and is the first.
pub proof fn lemma_find_crlf_bounds(s: Seq<u8>, from: int)
    ensures
        find_crlf(s, from) matches Some(i) ==> from <= i && i + 1 < s.len() && s[i] == 13
            && s[i + 1] == 10 && (forall|j: int| from <= j < i ==> !(#[trigger] s[j] == 13 && s[j
            + 1] == 10)),
    decreases s.len() - from,
{
    if !(from < 0 || from + 1 >= s.len()) && !(s[from] == 13 && s[from + 1] == 10) {
        lemma_find_crlf_bounds(s, from + 1);
    }
}

/// A found frame occupies at least one byte and ends within the buffer.
pub proof fn lemma_parse_consumes(s: Seq<u8>, p: int)
    ensures
        spec_parse(s, p) matches SpecParse::Found(_, end) ==> p < end <= s.len(),
    decreases s.len() - p, 0int, 1int,
{
    if 0 <= p < s.len() {
        lemma_find_crlf_bounds(s, p + 1);
        if s[p] == 42 {
            if let Some(i) = find_crlf(s, p + 1) {
                let line = s.subrange(p + 1, i);
                if valid_len_line(line) {
                    lemma_elems_consumes(s, i + 2, dec_value(line) as int);
                }
            }
        }
    }
}

/// A found run of frames ends within the buffer and has one model per frame.
pub proof fn lemma_elems_consumes(s: Seq<u8>, p: int, n: int)
    ensures
        spec_parse_elems(s, p, n) matches SpecElems::EFound(fs, end) ==> p <= end <= s.len()
            && fs.len() == (if n <= 0 { 0int } else { n }),
    decreases s.len() - p, n, 2int,
{
    if 0 <= p <= s.len() && n > 0 {
        lemma_parse_consumes(s, p);
        if let SpecParse::Found(f, end) = spec_parse(s, p) {
            if p < end <= s.len() {
                lemma_elems_consumes(s, end, n - 1);
            }
        }
    }
}

/// Scan for the first CR LF pair at or after `pos`, never reading past the
/// end of the buffer: a lone trailing CR is simply not found.
pub fn get_line(buf: &[u8], pos: usize) -> (r: Option<usize>)
    requires
        pos <= buf@.len(),
    ensures
        match r {
            Some(i) => pos <= i && i + 1 < buf@.len() && find_crlf(buf@, pos as int) == Some(
                i as int,
            ),
            None => find_crlf(buf@, pos as int) is None,
        },
{
    let n = buf.len();
    let mut i: usize = pos;
    while n > 0 && i < n - 1
        invariant
            pos <= i <= n,
            n == buf@.len(),
            find_crlf(buf@, pos as int) == find_crlf(buf@, i as int),
        decreases n - i,
    {
        if *slice_index_get(buf, i) == 13 && *slice_index_get(buf, i + 1) == 10 {
            return Some(i);
        }
        i = i + 1;
    }
    None
}

/// Parse the digits `buf[start..end]` as a non-negative 64-bit number.
pub fn parse_dec(buf: &[u8], start: usize, end: usize) -> (r: Option<u64>)
    requires
        start <= end <= buf@.len(),
    ensures
        match r {
            Some(v) => valid_len_line(buf@.subrange(start as int, end as int)) && v == dec_value(
                buf@.subrange(start as int, end as int),
            ),
            None => !valid_len_line(buf@.subrange(start as int, end as int)),
        },
{
    let ghost line = buf@.subrange(start as int, end as int);
    if start == end {
        return None;
    }
    let mut v: u64 = 0;
    let mut i: usize = start;
    while i < end
        invariant
            start <= i <= end <= buf@.len(),
            line == buf@.subrange(start as int, end as int),
            all_digits(buf@.subrange(start as int, i as int)),
            v == dec_value(buf@.subrange(start as int, i as int)),
        decreases end - i,
    {
        let b = *slice_index_get(buf, i);
        proof {
            assert(line[i - start] == b);
        }
        if b < 48 || b > 57 {
            return None;
        }
        let d = (b - 48) as u64;
        let step = match v.checked_mul(10) {
            Some(m) => m.checked_add(d),
            None => None,
        };
        proof {
            assert(buf@.subrange(start as int, i + 1).drop_last() =~= buf@.subrange(
                start as int,
                i as int,
            ));
            assert(buf@.subrange(start as int, i + 1).last() == b);
        }
        match step {
            Some(next) => {
                v = next;
            },
            None => {
                // the value no longer fits in 64 bits; more digits only grow it
                proof {
                    if all_digits(line) {
                        lemma_dec_value_prefix(line, i + 1 - start);
                        assert(line.take(i + 1 - start) =~= buf@.subrange(start as int, i + 1));
                    }
                }
                return None;
            },
        }
        i = i + 1;
    }
    proof {
        assert(buf@.subrange(start as int, end as int) =~= buf@.subrange(start as int, i as int));
    }
    Some(v)
}

/// Turn decoded line bytes into text.
///
/// Relies on `String::from_utf8`: it succeeds exactly on valid UTF-8 input,
/// and the returned string holds those very bytes.
#[verifier::external_body]
fn bytes_to_string(bytes: Vec<u8>) -> (r: Option<String>)
    ensures
        match r {
            Some(t) => encode_utf8(t@) == bytes@,
            None => !valid_utf8(bytes@),
        },
{
    String::from_utf8(bytes).ok()
}

/// Decode one frame from `buf` starting at `pos`.
///
/// `Ok(Some((f, end)))` is a complete frame occupying `buf[pos..end]`;
/// `Ok(None)` means the buffer does not yet hold a full frame; `Err` is a
/// protocol error. Every case agrees exactly with `spec_parse`.
pub fn parse(buf: &[u8], pos: usize) -> (r: Result<Option<(Frame, usize)>, ProtocolError>)
    requires
        pos <= buf@.len(),
    ensures
        match r {
            Ok(Some((f, end))) => pos < end <= buf@.len() && spec_parse(buf@, pos as int)
                == SpecParse::Found(f@, end as int),
            Ok(None) => spec_parse(buf@, pos as int) is Incomplete,
            Err(e) => spec_parse(buf@, pos as int) == SpecParse::Malformed(e),
        },
    decreases buf@.len() - pos, 0int,
{
    let n_bytes = buf.len();
    if pos >= n_bytes {
        return Ok(None);
    }
    proof {
        lemma_find_crlf_bounds(buf@, pos as int + 1);
    }
    let marker = *slice_index_get(buf, pos);
    if marker == 43 {
        match get_line(buf, pos + 1) {
            None => Ok(None),
            Some(i) => {
                let line = slice_to_vec(slice_subrange(buf, pos + 1, i));
                match bytes_to_string(line) {
                    Some(text) => {
                        proof {
                            encode_utf8_valid_utf8(text@);
                            encode_utf8_decode_utf8(text@);
                        }
                        Ok(Some((Frame::Simple(text), i + 2)))
                    },
                    None => Err(ProtocolError::InvalidText),
                }
            },
        }
    } else if marker == 36 {
        match get_line(buf, pos + 1) {
            None => Ok(None),
            Some(i) => {
                let ghost line = buf@.subrange(pos as int + 1, i as int);
                if i == pos + 3 && *slice_index_get(buf, pos + 1) == 45 && *slice_index_get(
                    buf,
                    pos + 2,
                ) == 49 {
                    proof {
                        assert(is_null_line(line));
                    }
                    Ok(Some((Frame::Null, i + 2)))
                } else {
                    proof {
                        assert(!is_null_line(line));
                    }
                    match parse_dec(buf, pos + 1, i) {
                        None => Err(ProtocolError::InvalidLength),
                        Some(len) => {
                            let data_start = i + 2;
                            let rem = n_bytes - data_start;
                            if (rem as u128) < (len as u128) + 2 {
                                Ok(None)
                            } else {
                                let plen = len as usize;
                                let payload = slice_to_vec(
                                    slice_subrange(buf, data_start, data_start + plen),
                                );
                                Ok(Some((Frame::Bulk(payload), data_start + plen + 2)))
                            }
                        },
                    }
                }
            },
        }
    } else if marker == 42 {
        match get_line(buf, pos + 1) {
            None => Ok(None),
            Some(i) => {
                match parse_dec(buf, pos + 1, i) {
                    None => Err(ProtocolError::InvalidLength),
                    Some(n) => {
                        match parse_elems(buf, i + 2, n) {
                            Ok(Some((elems, end))) => Ok(Some((Frame::Array(elems), end))),
                            Ok(None) => Ok(None),
                            Err(e) => Err(e),
                        }
                    },
                }
            },
        }
    } else {
        Err(ProtocolError::InvalidMarker(marker))
    }
}

/// How a run of already-decoded frames combines with the outcome for the rest.
pub open spec fn elems_prepend(done: Seq<FrameModel>, rest: SpecElems) -> SpecElems {
    match rest {
        SpecElems::EFound(fs, end) => SpecElems::EFound(done + fs, end),
        other => other,
    }
}

/// Decode `n` consecutive frames from `buf` starting at `pos`. If any of
/// them is incomplete the whole run is incomplete and all progress is
/// discarded, exactly as `spec_parse_elems` says.
fn parse_elems(buf: &[u8], pos: usize, n: u64) -> (r: Result<
    Option<(Vec<Frame>, usize)>,
    ProtocolError,
>)
    requires
        pos <= buf@.len(),
    ensures
        match r {
            Ok(Some((fs, end))) => pos <= end <= buf@.len() && spec_parse_elems(
                buf@,
                pos as int,
                n as int,
            ) == SpecElems::EFound(frames_model(fs@), end as int),
            Ok(None) => spec_parse_elems(buf@, pos as int, n as int) is EIncomplete,
            Err(e) => spec_parse_elems(buf@, pos as int, n as int) == SpecElems::EMalformed(e),
        },
    decreases buf@.len() - pos, 1int,
{
    let mut fs: Vec<Frame> = Vec::new();
    let mut cur = pos;
    let mut k: u64 = 0;
    proof {
        assert(frames_model(fs@) =~= Seq::<FrameModel>::empty());
    }
    while k < n
        invariant
            pos <= cur <= buf@.len(),
            0 <= k <= n,
            spec_parse_elems(buf@, pos as int, n as int) == elems_prepend(
                frames_model(fs@),
                spec_parse_elems(buf@, cur as int, n as int - k as int),
            ),
        decreases n - k,
    {
        let ghost done = fs@;
        match parse(buf, cur) {
            Ok(Some((f, end))) => {
                fs.push(f);
                proof {
                    lemma_frames_model(done);
                    lemma_frames_model(fs@);
                    assert forall|j: int| 0 <= j < fs@.len() implies frames_model(fs@)[j]
                        == frames_model(done).push(f@)[j] by {
                        assert(frames_model(fs@)[j] == frame_model(fs@[j]));
                        if j < done.len() {
                            assert(fs@[j] == done[j]);
                            assert(frames_model(done)[j] == frame_model(done[j]));
                        }
                    }
                    assert(frames_model(fs@) =~= frames_model(done).push(f@));
                    let rest = spec_parse_elems(buf@, end as int, n as int - k as int - 1);
                    if let SpecElems::EFound(more, end2) = rest {
                        assert(frames_model(done) + (seq![f@] + more) =~= frames_model(fs@)
                            + more);
                    }
                }
                cur = end;
                k = k + 1;
            },
            Ok(None) => {
                return Ok(None);
            },
            Err(e) => {
                return Err(e);
            },
        }
    }
    proof {
        assert(frames_model(fs@) + Seq::<FrameModel>::empty() =~= frames_model(fs@));
    }
    Ok(Some((fs, cur)))
}

} // verus!
