//! The decoder's laws: canonical wire bytes of a decodable frame decode
//! back to that very frame (round trip), and any strict prefix of them is
//! "incomplete" — never an error, never a wrong frame (incremental
//! delivery).

use vstd::prelude::*;
use vstd::utf8::{encode_utf8, encode_utf8_valid_utf8, encode_utf8_decode_utf8};
use crate::frame::{FrameModel, wire, wire_seq, decodable, has_crlf_at, all_digits,
    is_digit, dec_value, dec_rep, lemma_dec_rep_digits, lemma_dec_rep_value};
use crate::decode::{SpecParse, SpecElems, spec_parse, spec_parse_elems, find_crlf,
    valid_len_line, is_null_line, lemma_find_crlf_bounds, lemma_parse_consumes};

verus! {

/// `find_crlf` yields `i` when the pair stands at `i` and nowhere earlier.
proof fn lemma_find_crlf_at(s: Seq<u8>, from: int, i: int)
    requires
        0 <= from <= i,
        i + 1 < s.len(),
        s[i] == 13,
        s[i + 1] == 10,
        forall|j: int| from <= j < i ==> !(#[trigger] s[j] == 13 && s[j + 1] == 10),
    ensures
        find_crlf(s, from) == Some(i),
    decreases i - from,
{
    if from < i {
        lemma_find_crlf_at(s, from + 1, i);
    }
}

/// A run of digits written after the marker byte, closed by CR LF, is the
/// first line: `find_crlf` stops right after it.
proof fn lemma_header_crlf(s: Seq<u8>, p: int, d: Seq<u8>)
    requires
        all_digits(d),
        0 <= p,
        p + 1 + d.len() + 2 <= s.len(),
        forall|j: int| 0 <= j < d.len() ==> s[p + 1 + j] == #[trigger] d[j],
        s[p + 1 + d.len()] == 13,
        s[p + 2 + d.len()] == 10,
    ensures
        find_crlf(s, p + 1) == Some(p + 1 + d.len() as int),
        s.subrange(p + 1, p + 1 + d.len() as int) =~= d,
{
    let i0 = p + 1 + d.len() as int;
    assert forall|j: int| p + 1 <= j < i0 implies !(#[trigger] s[j] == 13 && s[j + 1] == 10) by {
        assert(s[j] == d[j - p - 1]);
        assert(is_digit(d[j - p - 1]));
    }
    lemma_find_crlf_at(s, p + 1, i0);
}

/// The wire bytes of a decodable frame, placed at position `p`, decode from
/// `p` to exactly that frame, ending right after them.
pub proof fn lemma_wire_parses(s: Seq<u8>, p: int, f: FrameModel)
    requires
        decodable(f),
        0 <= p,
        p + wire(f).len() <= s.len(),
        s.subrange(p, p + wire(f).len() as int) == wire(f),
    ensures
        spec_parse(s, p) == SpecParse::Found(f, p + wire(f).len() as int),
    decreases f,
{
    let w = wire(f);
    assert forall|k: int| 0 <= k < w.len() implies s[p + k] == #[trigger] w[k] by {
        assert(s.subrange(p, p + w.len() as int)[k] == s[p + k]);
    }
    match f {
        FrameModel::Simple(cs) => {
            let enc = encode_utf8(cs);
            let l = enc.len() as int;
            assert(w[0] == 43);
            assert forall|j: int| 0 <= j < l implies w[1 + j] == #[trigger] enc[j] by {}
            assert(w[1 + l] == 13);
            assert(w[2 + l] == 10);
            let i0 = p + 1 + l;
            assert forall|j: int| p + 1 <= j < i0 implies !(#[trigger] s[j] == 13 && s[j + 1]
                == 10) by {
                assert(s[j] == enc[j - p - 1]);
                if j + 1 < i0 {
                    assert(s[j + 1] == enc[j - p]);
                    assert(!has_crlf_at(enc, j - p - 1));
                } else {
                    assert(s[j + 1] == 13);
                }
            }
            lemma_find_crlf_at(s, p + 1, i0);
            let line = s.subrange(p + 1, i0);
            assert(line =~= enc);
            encode_utf8_valid_utf8(cs);
            encode_utf8_decode_utf8(cs);
            assert(spec_parse(s, p) == SpecParse::Found(f, p + w.len() as int));
        },
        FrameModel::Error(_) => {
            assert(false);
        },
        FrameModel::Integer(_) => {
            assert(false);
        },
        FrameModel::Null => {
            assert(w[0] == 36 && w[1] == 45 && w[2] == 49 && w[3] == 13 && w[4] == 10);
            assert forall|j: int| p + 1 <= j < p + 3 implies !(#[trigger] s[j] == 13 && s[j + 1]
                == 10) by {
                assert(s[p + 1] == 45 && s[p + 2] == 49);
            }
            lemma_find_crlf_at(s, p + 1, p + 3);
            let line = s.subrange(p + 1, p + 3);
            assert(line.len() == 2 && line[0] == 45 && line[1] == 49);
            assert(is_null_line(line));
            assert(spec_parse(s, p) == SpecParse::Found(f, p + 5));
        },
        FrameModel::Bulk(pl) => {
            let d = dec_rep(pl.len());
            lemma_dec_rep_digits(pl.len());
            lemma_dec_rep_value(pl.len());
            let dl = d.len() as int;
            let l = pl.len() as int;
            assert(w[0] == 36);
            assert forall|j: int| 0 <= j < dl implies s[p + 1 + j] == #[trigger] d[j] by {
                assert(w[1 + j] == d[j]);
            }
            assert(w[1 + dl] == 13 && w[2 + dl] == 10);
            lemma_header_crlf(s, p, d);
            let i0 = p + 1 + dl;
            let line = s.subrange(p + 1, i0);
            assert(line == d);
            assert(is_digit(d[0]));
            assert(!is_null_line(line));
            assert(valid_len_line(line));
            assert(dec_value(line) == pl.len());
            assert forall|k: int| 0 <= k < l implies s[i0 + 2 + k] == #[trigger] pl[k] by {
                assert(w[1 + dl + 2 + k] == pl[k]);
            }
            assert(s.subrange(i0 + 2, i0 + 2 + l) =~= pl);
            assert(s.len() >= i0 + 2 + l + 2);
            assert(spec_parse(s, p) == SpecParse::Found(f, i0 + 2 + l + 2));
        },
        FrameModel::Array(fs) => {
            let d = dec_rep(fs.len());
            lemma_dec_rep_digits(fs.len());
            lemma_dec_rep_value(fs.len());
            let dl = d.len() as int;
            let ws = wire_seq(fs);
            let wl = ws.len() as int;
            assert(w[0] == 42);
            assert forall|j: int| 0 <= j < dl implies s[p + 1 + j] == #[trigger] d[j] by {
                assert(w[1 + j] == d[j]);
            }
            assert(w[1 + dl] == 13 && w[2 + dl] == 10);
            lemma_header_crlf(s, p, d);
            let i0 = p + 1 + dl;
            let line = s.subrange(p + 1, i0);
            assert(line == d);
            assert(valid_len_line(line));
            assert(dec_value(line) == fs.len());
            assert forall|k: int| 0 <= k < wl implies s[i0 + 2 + k] == #[trigger] ws[k] by {
                assert(w[1 + dl + 2 + k] == ws[k]);
            }
            assert(s.subrange(i0 + 2, i0 + 2 + wl) =~= ws);
            lemma_wire_elems(s, i0 + 2, fs);
            assert(spec_parse(s, p) == SpecParse::Found(f, i0 + 2 + wl));
        },
    }
}

/// The concatenated wire bytes of decodable frames, placed at position `p`,
/// decode as that run of frames.
pub proof fn lemma_wire_elems(s: Seq<u8>, p: int, fs: Seq<FrameModel>)
    requires
        forall|i: int| 0 <= i < fs.len() ==> decodable(#[trigger] fs[i]),
        0 <= p,
        p + wire_seq(fs).len() <= s.len(),
        s.subrange(p, p + wire_seq(fs).len() as int) == wire_seq(fs),
    ensures
        spec_parse_elems(s, p, fs.len() as int) == SpecElems::EFound(
            fs,
            p + wire_seq(fs).len() as int,
        ),
    decreases fs,
{
    let ws = wire_seq(fs);
    assert forall|k: int| 0 <= k < ws.len() implies s[p + k] == #[trigger] ws[k] by {
        assert(s.subrange(p, p + ws.len() as int)[k] == s[p + k]);
    }
    if fs.len() == 0 {
        assert(fs =~= Seq::<FrameModel>::empty());
        assert(spec_parse_elems(s, p, 0) == SpecElems::EFound(Seq::<FrameModel>::empty(), p));
    } else {
        let f0 = fs[0];
        let w0 = wire(f0);
        let rest = fs.drop_first();
        let wr = wire_seq(rest);
        assert(ws == w0 + wr);
        assert(s.subrange(p, p + w0.len() as int) =~= w0);
        lemma_wire_parses(s, p, f0);
        lemma_parse_consumes(s, p);
        let e1 = p + w0.len() as int;
        assert forall|k: int| 0 <= k < wr.len() implies s[e1 + k] == #[trigger] wr[k] by {
            assert(ws[w0.len() + k] == wr[k]);
        }
        assert(s.subrange(e1, e1 + wr.len() as int) =~= wr);
        assert forall|i: int| 0 <= i < rest.len() implies decodable(#[trigger] rest[i]) by {
            assert(rest[i] == fs[i + 1]);
        }
        lemma_wire_elems(s, e1, rest);
        assert(seq![f0] + rest =~= fs);
        assert(spec_parse_elems(s, p, fs.len() as int) == SpecElems::EFound(
            fs,
            p + ws.len() as int,
        ));
    }
}

/// Round trip: the canonical wire bytes of any decodable frame — with any
/// trailing bytes after them — decode to that very frame, consuming exactly
/// the encoding and leaving the trailing bytes untouched.
pub proof fn lemma_round_trip(f: FrameModel, rest: Seq<u8>)
    requires
        decodable(f),
    ensures
        spec_parse(wire(f) + rest, 0) == SpecParse::Found(f, wire(f).len() as int),
{
    let s = wire(f) + rest;
    assert(s.subrange(0, wire(f).len() as int) =~= wire(f));
    lemma_wire_parses(s, 0, f);
}

/// A decode outcome other than "incomplete" is final: feeding more bytes
/// after the ones already inspected changes nothing.
pub proof fn lemma_parse_prefix_stable(s: Seq<u8>, t: Seq<u8>, p: int)
    requires
        s.len() <= t.len(),
        t.subrange(0, s.len() as int) == s,
    ensures
        (spec_parse(s, p) matches SpecParse::Found(f, end) ==> spec_parse(t, p)
            == SpecParse::Found(f, end)),
        (spec_parse(s, p) matches SpecParse::Malformed(e) ==> spec_parse(t, p)
            == SpecParse::Malformed(e)),
    decreases s.len() - p, 0int, 0int,
{
    if 0 <= p < s.len() {
        assert forall|k: int| 0 <= k < s.len() implies #[trigger] t[k] == s[k] by {
            assert(t.subrange(0, s.len() as int)[k] == t[k]);
        }
        lemma_find_crlf_bounds(s, p + 1);
        if s[p] == 43 {
            if let Some(i) = find_crlf(s, p + 1) {
                lemma_find_crlf_at(t, p + 1, i);
                assert(t.subrange(p + 1, i) =~= s.subrange(p + 1, i));
            }
        } else if s[p] == 36 {
            if let Some(i) = find_crlf(s, p + 1) {
                lemma_find_crlf_at(t, p + 1, i);
                let line = s.subrange(p + 1, i);
                assert(t.subrange(p + 1, i) =~= line);
                if !is_null_line(line) && valid_len_line(line) {
                    let len = dec_value(line) as int;
                    if s.len() >= i + 2 + len + 2 {
                        assert(t.subrange(i + 2, i + 2 + len) =~= s.subrange(i + 2, i + 2 + len));
                    }
                }
            }
        } else if s[p] == 42 {
            if let Some(i) = find_crlf(s, p + 1) {
                lemma_find_crlf_at(t, p + 1, i);
                let line = s.subrange(p + 1, i);
                assert(t.subrange(p + 1, i) =~= line);
                if valid_len_line(line) {
                    lemma_elems_prefix_stable(s, t, i + 2, dec_value(line) as int);
                }
            }
        }
    }
}

/// The runs-of-frames version of `lemma_parse_prefix_stable`.
pub proof fn lemma_elems_prefix_stable(s: Seq<u8>, t: Seq<u8>, p: int, n: int)
    requires
        s.len() <= t.len(),
        t.subrange(0, s.len() as int) == s,
    ensures
        (spec_parse_elems(s, p, n) matches SpecElems::EFound(fs, end) ==> spec_parse_elems(
            t,
            p,
            n,
        ) == SpecElems::EFound(fs, end)),
        (spec_parse_elems(s, p, n) matches SpecElems::EMalformed(e) ==> spec_parse_elems(t, p, n)
            == SpecElems::EMalformed(e)),
    decreases s.len() - p, n, 1int,
{
    if 0 <= p <= s.len() && n > 0 {
        lemma_parse_prefix_stable(s, t, p);
        lemma_parse_consumes(s, p);
        if let SpecParse::Found(f0, end) = spec_parse(s, p) {
            lemma_elems_prefix_stable(s, t, end, n - 1);
        }
    }
}

/// Incremental delivery: a fully-encoded decodable frame split at any byte
/// offset into two deliveries behaves like one delivery. The first part
/// alone decodes as "incomplete" — never an error, never some other frame —
/// and once the rest arrives the decoder yields the identical frame,
/// consuming exactly its own encoded length and leaving later bytes alone.
pub proof fn lemma_incremental_delivery(f: FrameModel, cut: int, extra: Seq<u8>)
    requires
        decodable(f),
        0 <= cut < wire(f).len(),
    ensures
        spec_parse(wire(f).take(cut), 0) is Incomplete,
        spec_parse(wire(f) + extra, 0) == SpecParse::Found(f, wire(f).len() as int),
{
    let s = wire(f).take(cut);
    let t = wire(f);
    assert(t.subrange(0, t.len() as int) =~= t);
    lemma_wire_parses(t, 0, f);
    lemma_parse_consumes(s, 0);
    assert(t.subrange(0, cut) =~= s);
    match spec_parse(s, 0) {
        SpecParse::Found(g, end) => {
            lemma_parse_prefix_stable(s, t, 0);
            assert(false);
        },
        SpecParse::Malformed(e) => {
            lemma_parse_prefix_stable(s, t, 0);
            assert(false);
        },
        SpecParse::Incomplete => {},
    }
    lemma_round_trip(f, extra);
}

} // verus!
