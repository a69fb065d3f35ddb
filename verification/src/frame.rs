//! Frames: the unit of the wire protocol.
//!
//! A frame starts with a one-byte tag and is terminated by CRLF; bulk frames
//! carry a length-prefixed payload and array frames a counted sequence of
//! frames.  [`Frame::check`] scans buffered bytes for one complete frame
//! without allocating, [`Frame::parse`] builds the value, and
//! [`Frame::encode`] appends a frame's wire form to a buffer.  The
//! specification-level parser and encoder are related by
//! [`lemma_frame_round_trip`]: parsing an encoding yields the frame back.

use vstd::prelude::*;
use vstd::slice::*;
use vstd::utf8::*;

use crate::bridge::bytes_to_string;

verus! {

/// How reading a frame from buffered bytes can fail.
#[derive(Debug)]
pub enum FrameError {
    /// Not enough bytes buffered yet; read more and try again.
    Incomplete,
    /// The bytes cannot be a frame; the connection they came from is broken.
    Malformed,
}

/// Outcome of scanning or parsing bytes that may hold a frame.
///
/// `Incomplete` is an expected condition (more bytes must be read), not an
/// error; `Malformed` means the bytes cannot begin a frame and the
/// connection they came from is beyond recovery.
#[verifier::ext_equal]
pub enum SpecParsed<V> {
    Incomplete,
    Malformed,
    Done(V, int),
}

/// Mathematical model of a frame: what contracts in this crate speak about.
#[verifier::ext_equal]
pub enum FrameModel {
    Simple(Seq<char>),
    Error(Seq<char>),
    Integer(u64),
    Bulk(Seq<u8>),
    Null,
    Array(Seq<FrameModel>),
}

/// A frame of the wire protocol.
#[derive(Debug)]
pub enum Frame {
    /// A short textual status line, written `+<text>\r\n`.
    Simple(String),
    /// An error line, written `-<text>\r\n`.
    Error(String),
    /// An unsigned integer, written `:<decimal>\r\n`.
    Integer(u64),
    /// A length-prefixed byte string, written `$<len>\r\n<bytes>\r\n`.
    Bulk(Vec<u8>),
    /// The absent value, written `$-1\r\n`.
    Null,
    /// A counted sequence of frames, written `*<count>\r\n` then the elements.
    Array(Vec<Frame>),
}

/// Model of one frame.
pub open spec fn frame_model(f: Frame) -> FrameModel
    decreases f,
    via frame_model_decreases
{
    match f {
        Frame::Simple(s) => FrameModel::Simple(s@),
        Frame::Error(s) => FrameModel::Error(s@),
        Frame::Integer(n) => FrameModel::Integer(n),
        Frame::Bulk(b) => FrameModel::Bulk(b@),
        Frame::Null => FrameModel::Null,
        Frame::Array(v) => FrameModel::Array(seq_views(v@)),
    }
}

/// Model of a sequence of frames, element by element.
pub open spec fn seq_views(s: Seq<Frame>) -> Seq<FrameModel>
    decreases s,
    via seq_views_decreases
{
    if s.len() == 0 {
        Seq::empty()
    } else {
        seq![frame_model(s.first())] + seq_views(s.drop_first())
    }
}

#[via_fn]
proof fn frame_model_decreases(f: Frame) {
    match f {
        Frame::Array(v) => {
            vstd::std_specs::vec::axiom_vec_decreases_to_view(v);
            assert(decreases_to!(f => v@));
        },
        _ => {},
    }
}

#[via_fn]
proof fn seq_views_decreases(s: Seq<Frame>) {
    if s.len() > 0 {
        vstd::seq::axiom_seq_index_decreases(s, 0);
        assert(decreases_to!(s => s.first()));
        vstd::seq::axiom_seq_subrange_decreases(s, 1, s.len() as int);
        assert(decreases_to!(s => s.drop_first()));
    }
}

impl View for Frame {
    type V = FrameModel;

    open spec fn view(&self) -> FrameModel {
        frame_model(*self)
    }
}

/// The model of a longer sequence extends the model of a shorter one.
pub proof fn lemma_seq_views_push(s: Seq<Frame>, f: Frame)
    ensures
        seq_views(s.push(f)) =~= seq_views(s).push(frame_model(f)),
    decreases s.len(),
{
    if s.len() == 0 {
        assert(s.push(f).first() == f);
        assert(s.push(f).drop_first() =~= Seq::<Frame>::empty());
        assert(seq_views(s.push(f)) == seq![frame_model(f)] + seq_views(Seq::<Frame>::empty()));
        assert(seq_views(s.push(f)) =~= seq_views(s).push(frame_model(f)));
    } else {
        assert(s.push(f).first() == s.first());
        assert(s.push(f).drop_first() =~= s.drop_first().push(f));
        lemma_seq_views_push(s.drop_first(), f);
        let a = seq![frame_model(s.first())];
        let b = seq_views(s.drop_first());
        assert(seq_views(s.push(f)) == a + seq_views(s.drop_first().push(f)));
        assert(seq_views(s.push(f)) == a + b.push(frame_model(f)));
        assert(a + b.push(frame_model(f)) =~= (a + b).push(frame_model(f)));
        assert(seq_views(s) == a + b);
    }
}

/// Length and elements of a sequence's model.
pub proof fn lemma_seq_views_props(s: Seq<Frame>)
    ensures
        seq_views(s).len() == s.len(),
        forall|i: int| 0 <= i < s.len() ==> seq_views(s)[i] == frame_model(#[trigger] s[i]),
    decreases s.len(),
{
    if s.len() > 0 {
        lemma_seq_views_props(s.drop_first());
        assert(forall|i: int| 1 <= i < s.len() ==> s.drop_first()[i - 1] == #[trigger] s[i]);
    }
}

/// An ASCII decimal digit.
pub open spec fn is_digit(b: u8) -> bool {
    48 <= b <= 57
}

pub open spec fn all_digits(s: Seq<u8>) -> bool {
    forall|i: int| 0 <= i < s.len() ==> is_digit(#[trigger] s[i])
}

/// Value of a digit string read as a base-10 number.
pub open spec fn digits_val(s: Seq<u8>) -> nat
    decreases s.len(),
{
    if s.len() == 0 {
        0
    } else {
        digits_val(s.drop_last()) * 10 + (s.last() - 48) as nat
    }
}

/// Canonical decimal representation of a number, most significant digit first.
pub open spec fn spec_dec(n: nat) -> Seq<u8>
    decreases n,
{
    if n < 10 {
        seq![(48 + n) as u8]
    } else {
        spec_dec(n / 10).push((48 + n % 10) as u8)
    }
}

/// Index of the first CRLF pair at or after `from`, if the bytes hold one.
pub open spec fn find_crlf(s: Seq<u8>, from: int) -> Option<int>
    decreases s.len() - from,
{
    if from < 0 || from + 1 >= s.len() {
        None
    } else if s[from] == 13 && s[from + 1] == 10 {
        Some(from)
    } else {
        find_crlf(s, from + 1)
    }
}

/// A line is everything up to the next CRLF; without a CRLF it is incomplete.
pub open spec fn spec_parse_line(s: Seq<u8>, pos: int) -> SpecParsed<Seq<u8>> {
    match find_crlf(s, pos) {
        None => SpecParsed::Incomplete,
        Some(i) => SpecParsed::Done(s.subrange(pos, i), i + 2),
    }
}

/// A decimal line is well formed when it is non-empty, all digits, and its
/// value is representable.
pub open spec fn dec_line_ok(l: Seq<u8>) -> bool {
    l.len() > 0 && all_digits(l) && digits_val(l) <= u64::MAX
}

/// A length or count: one line holding a decimal number.
pub open spec fn spec_parse_dec(s: Seq<u8>, pos: int) -> SpecParsed<u64> {
    match spec_parse_line(s, pos) {
        SpecParsed::Incomplete => SpecParsed::Incomplete,
        SpecParsed::Malformed => SpecParsed::Malformed,
        SpecParsed::Done(l, p) => if dec_line_ok(l) {
            SpecParsed::Done(digits_val(l) as u64, p)
        } else {
            SpecParsed::Malformed
        },
    }
}

/// What parsing one frame at `pos` yields: the frame's model and the
/// position just past it.  Nested arrays are accepted on the way in.
pub open spec fn spec_parse_frame(s: Seq<u8>, pos: int) -> SpecParsed<FrameModel>
    decreases s.len() - pos, 0int,
{
    if pos < 0 || pos > s.len() {
        SpecParsed::Malformed
    } else if pos == s.len() {
        SpecParsed::Incomplete
    } else {
        let tag = s[pos];
        if tag == 43 {  // '+'
            match spec_parse_line(s, pos + 1) {
                SpecParsed::Incomplete => SpecParsed::Incomplete,
                SpecParsed::Malformed => SpecParsed::Malformed,
                SpecParsed::Done(l, p) => if valid_utf8(l) {
                    SpecParsed::Done(FrameModel::Simple(decode_utf8(l)), p)
                } else {
                    SpecParsed::Malformed
                },
            }
        } else if tag == 45 {  // '-'
            match spec_parse_line(s, pos + 1) {
                SpecParsed::Incomplete => SpecParsed::Incomplete,
                SpecParsed::Malformed => SpecParsed::Malformed,
                SpecParsed::Done(l, p) => if valid_utf8(l) {
                    SpecParsed::Done(FrameModel::Error(decode_utf8(l)), p)
                } else {
                    SpecParsed::Malformed
                },
            }
        } else if tag == 58 {  // ':'
            match spec_parse_dec(s, pos + 1) {
                SpecParsed::Incomplete => SpecParsed::Incomplete,
                SpecParsed::Malformed => SpecParsed::Malformed,
                SpecParsed::Done(n, p) => SpecParsed::Done(FrameModel::Integer(n), p),
            }
        } else if tag == 36 {  // '$'
            if pos + 1 == s.len() {
                SpecParsed::Incomplete
            } else if s[pos + 1] == 45 {  // '-': the null frame
                match spec_parse_line(s, pos + 1) {
                    SpecParsed::Incomplete => SpecParsed::Incomplete,
                    SpecParsed::Malformed => SpecParsed::Malformed,
                    SpecParsed::Done(l, p) => if l == seq![45u8, 49u8] {
                        SpecParsed::Done(FrameModel::Null, p)
                    } else {
                        SpecParsed::Malformed
                    },
                }
            } else {
                match spec_parse_dec(s, pos + 1) {
                    SpecParsed::Incomplete => SpecParsed::Incomplete,
                    SpecParsed::Malformed => SpecParsed::Malformed,
                    SpecParsed::Done(n, p) => if n > usize::MAX - 2 {
                        SpecParsed::Malformed
                    } else if p + n + 2 > s.len() {
                        SpecParsed::Incomplete
                    } else {
                        SpecParsed::Done(FrameModel::Bulk(s.subrange(p, p + n)), p + n + 2)
                    },
                }
            }
        } else if tag == 42 {  // '*'
            match spec_parse_dec(s, pos + 1) {
                SpecParsed::Incomplete => SpecParsed::Incomplete,
                SpecParsed::Malformed => SpecParsed::Malformed,
                SpecParsed::Done(n, p) => if pos < p && p <= s.len() {
                    match spec_parse_elems(s, p, n as int) {
                        SpecParsed::Incomplete => SpecParsed::Incomplete,
                        SpecParsed::Malformed => SpecParsed::Malformed,
                        SpecParsed::Done(elems, p2) => SpecParsed::Done(
                            FrameModel::Array(elems),
                            p2,
                        ),
                    }
                } else {
                    SpecParsed::Malformed
                },
            }
        } else {
            SpecParsed::Malformed
        }
    }
}

/// What parsing `n` consecutive frames at `pos` yields.
pub open spec fn spec_parse_elems(s: Seq<u8>, pos: int, n: int) -> SpecParsed<Seq<FrameModel>>
    decreases s.len() - pos, n + 1,
{
    if pos < 0 || pos > s.len() || n < 0 {
        SpecParsed::Malformed
    } else if n == 0 {
        SpecParsed::Done(Seq::empty(), pos)
    } else {
        match spec_parse_frame(s, pos) {
            SpecParsed::Incomplete => SpecParsed::Incomplete,
            SpecParsed::Malformed => SpecParsed::Malformed,
            SpecParsed::Done(f, p) => if pos < p && p <= s.len() {
                match spec_parse_elems(s, p, n - 1) {
                    SpecParsed::Incomplete => SpecParsed::Incomplete,
                    SpecParsed::Malformed => SpecParsed::Malformed,
                    SpecParsed::Done(rest, p2) => SpecParsed::Done(seq![f] + rest, p2),
                }
            } else {
                SpecParsed::Malformed
            },
        }
    }
}

/// The structural scan: like parsing, but checks no content (neither UTF-8
/// of text lines nor the spelling of the null frame), so it can run without
/// allocating.
pub open spec fn spec_check(s: Seq<u8>, pos: int) -> SpecParsed<()>
    decreases s.len() - pos, 0int,
{
    if pos < 0 || pos > s.len() {
        SpecParsed::Malformed
    } else if pos == s.len() {
        SpecParsed::Incomplete
    } else {
        let tag = s[pos];
        if tag == 43 || tag == 45 {  // '+' or '-'
            match spec_parse_line(s, pos + 1) {
                SpecParsed::Incomplete => SpecParsed::Incomplete,
                SpecParsed::Malformed => SpecParsed::Malformed,
                SpecParsed::Done(l, p) => SpecParsed::Done((), p),
            }
        } else if tag == 58 {  // ':'
            match spec_parse_dec(s, pos + 1) {
                SpecParsed::Incomplete => SpecParsed::Incomplete,
                SpecParsed::Malformed => SpecParsed::Malformed,
                SpecParsed::Done(n, p) => SpecParsed::Done((), p),
            }
        } else if tag == 36 {  // '$'
            if pos + 1 == s.len() {
                SpecParsed::Incomplete
            } else if s[pos + 1] == 45 {  // '-'
                match spec_parse_line(s, pos + 1) {
                    SpecParsed::Incomplete => SpecParsed::Incomplete,
                    SpecParsed::Malformed => SpecParsed::Malformed,
                    SpecParsed::Done(l, p) => SpecParsed::Done((), p),
                }
            } else {
                match spec_parse_dec(s, pos + 1) {
                    SpecParsed::Incomplete => SpecParsed::Incomplete,
                    SpecParsed::Malformed => SpecParsed::Malformed,
                    SpecParsed::Done(n, p) => if n > usize::MAX - 2 {
                        SpecParsed::Malformed
                    } else if p + n + 2 > s.len() {
                        SpecParsed::Incomplete
                    } else {
                        SpecParsed::Done((), p + n + 2)
                    },
                }
            }
        } else if tag == 42 {  // '*'
            match spec_parse_dec(s, pos + 1) {
                SpecParsed::Incomplete => SpecParsed::Incomplete,
                SpecParsed::Malformed => SpecParsed::Malformed,
                SpecParsed::Done(n, p) => if pos < p && p <= s.len() {
                    spec_check_elems(s, p, n as int)
                } else {
                    SpecParsed::Malformed
                },
            }
        } else {
            SpecParsed::Malformed
        }
    }
}

/// The structural scan of `n` consecutive frames at `pos`.
pub open spec fn spec_check_elems(s: Seq<u8>, pos: int, n: int) -> SpecParsed<()>
    decreases s.len() - pos, n + 1,
{
    if pos < 0 || pos > s.len() || n < 0 {
        SpecParsed::Malformed
    } else if n == 0 {
        SpecParsed::Done((), pos)
    } else {
        match spec_check(s, pos) {
            SpecParsed::Incomplete => SpecParsed::Incomplete,
            SpecParsed::Malformed => SpecParsed::Malformed,
            SpecParsed::Done(u, p) => if pos < p && p <= s.len() {
                spec_check_elems(s, p, n - 1)
            } else {
                SpecParsed::Malformed
            },
        }
    }
}

/// Bytes that contain neither CR nor LF, so a line holding them ends exactly
/// at its own terminator.
pub open spec fn crlf_free(b: Seq<u8>) -> bool {
    forall|i: int| 0 <= i < b.len() ==> #[trigger] b[i] != 13 && b[i] != 10
}

/// A frame that can stand as one value on the wire: not an array, and its
/// text free of CR and LF.
pub open spec fn wf_value(f: FrameModel) -> bool {
    match f {
        FrameModel::Simple(t) => crlf_free(encode_utf8(t)),
        FrameModel::Error(t) => crlf_free(encode_utf8(t)),
        FrameModel::Integer(n) => true,
        FrameModel::Bulk(b) => true,
        FrameModel::Null => true,
        FrameModel::Array(elems) => false,
    }
}

/// Every payload is short enough that its end fits a buffer position: a
/// frame longer than the address space cannot sit in a read buffer.
pub open spec fn sizes_ok(f: FrameModel) -> bool
    decreases f,
{
    match f {
        FrameModel::Bulk(b) => b.len() <= usize::MAX - 2,
        FrameModel::Array(elems) => forall|i: int|
            0 <= i < elems.len() ==> sizes_ok(#[trigger] elems[i]),
        _ => true,
    }
}

/// A frame this system may emit: a well-formed value, or an array of
/// well-formed values (arrays never nest on the way out).
pub open spec fn encodable(f: FrameModel) -> bool {
    match f {
        FrameModel::Array(elems) => elems.len() <= u64::MAX && forall|i: int|
            0 <= i < elems.len() ==> wf_value(#[trigger] elems[i]),
        _ => wf_value(f),
    }
}

/// Wire form of one non-array frame.
pub open spec fn spec_encode_value(f: FrameModel) -> Seq<u8> {
    match f {
        FrameModel::Simple(t) => seq![43u8] + encode_utf8(t) + seq![13u8, 10u8],
        FrameModel::Error(t) => seq![45u8] + encode_utf8(t) + seq![13u8, 10u8],
        FrameModel::Integer(n) => seq![58u8] + spec_dec(n as nat) + seq![13u8, 10u8],
        FrameModel::Bulk(b) => seq![36u8] + spec_dec(b.len()) + seq![13u8, 10u8] + b + seq![
            13u8,
            10u8,
        ],
        FrameModel::Null => seq![36u8, 45u8, 49u8, 13u8, 10u8],
        FrameModel::Array(elems) => Seq::empty(),
    }
}

/// Wire form of consecutive frames.
pub open spec fn spec_encode_elems(elems: Seq<FrameModel>) -> Seq<u8>
    decreases elems.len(),
{
    if elems.len() == 0 {
        Seq::empty()
    } else {
        spec_encode_value(elems.first()) + spec_encode_elems(elems.drop_first())
    }
}

/// Wire form of a frame: an array is a counted header followed by its
/// elements, anything else is one value.
pub open spec fn spec_encode(f: FrameModel) -> Seq<u8> {
    match f {
        FrameModel::Array(elems) => seq![42u8] + spec_dec(elems.len()) + seq![13u8, 10u8]
            + spec_encode_elems(elems),
        _ => spec_encode_value(f),
    }
}

/// A longer digit string never has a smaller value.
proof fn lemma_digits_val_prefix(s: Seq<u8>, i: int)
    requires
        0 <= i <= s.len(),
    ensures
        digits_val(s.take(i)) <= digits_val(s),
    decreases s.len() - i,
{
    if i == s.len() {
        assert(s.take(i) =~= s);
    } else {
        assert(s.take(i + 1).drop_last() =~= s.take(i));
        assert(s.take(i + 1).last() == s[i]);
        assert(digits_val(s.take(i)) <= digits_val(s.take(i + 1)));
        lemma_digits_val_prefix(s, i + 1);
    }
}

/// Finds the first CRLF pair at or after `from`.
fn find_crlf_from(buf: &[u8], from: usize) -> (r: Option<usize>)
    ensures
        match r {
            Some(i) => find_crlf(buf@, from as int) == Some(i as int) && from <= i && i + 1
                < buf@.len(),
            None => find_crlf(buf@, from as int) is None,
        },
{
    if buf.len() == 0 {
        return None;
    }
    let mut i = from;
    while i < buf.len() - 1
        invariant
            from <= i,
            buf@.len() >= 1,
            find_crlf(buf@, from as int) == find_crlf(buf@, i as int),
        decreases buf@.len() - i,
    {
        if buf[i] == 13 && buf[i + 1] == 10 {
            return Some(i);
        }
        assert(find_crlf(buf@, i as int) == find_crlf(buf@, i + 1));
        i = i + 1;
    }
    None
}

/// Reads a whole line of digits as a number; rejects anything else, and any
/// value too large to represent.
pub(crate) fn parse_u64_digits(line: &[u8]) -> (r: Option<u64>)
    ensures
        match r {
            Some(v) => dec_line_ok(line@) && v == digits_val(line@),
            None => !dec_line_ok(line@),
        },
{
    if line.len() == 0 {
        return None;
    }
    let mut acc: u64 = 0;
    let mut i: usize = 0;
    while i < line.len()
        invariant
            0 <= i <= line@.len(),
            all_digits(line@.take(i as int)),
            acc == digits_val(line@.take(i as int)),
        decreases line@.len() - i,
    {
        let b = line[i];
        if b < 48 || b > 57 {
            return None;
        }
        let d = (b - 48) as u64;
        proof {
            assert(line@.take(i + 1).drop_last() =~= line@.take(i as int));
            assert(line@.take(i + 1).last() == line@[i as int]);
        }
        if acc > (u64::MAX - d) / 10 {
            proof {
                assert(acc * 10 + d > u64::MAX) by (nonlinear_arith)
                    requires
                        acc > (u64::MAX - d) / 10,
                        d <= 9,
                ;
                assert(digits_val(line@.take(i + 1)) > u64::MAX);
                lemma_digits_val_prefix(line@, i + 1);
            }
            return None;
        }
        proof {
            assert(acc * 10 + d <= u64::MAX) by (nonlinear_arith)
                requires
                    acc <= (u64::MAX - d) / 10,
                    d <= 9,
            ;
        }
        acc = acc * 10 + d;
        i = i + 1;
    }
    proof {
        assert(line@.take(i as int) =~= line@);
    }
    Some(acc)
}

/// Appends the canonical decimal form of `n`.
fn push_dec(out: &mut Vec<u8>, n: u64)
    ensures
        final(out)@ == old(out)@ + spec_dec(n as nat),
    decreases n,
{
    if n < 10 {
        out.push(48 + n as u8);
        assert(final(out)@ =~= old(out)@ + spec_dec(n as nat));
    } else {
        proof {
            assert(n / 10 < n) by (nonlinear_arith)
                requires
                    n >= 10,
            ;
        }
        push_dec(out, n / 10);
        out.push(48 + (n % 10) as u8);
        assert(final(out)@ =~= old(out)@ + spec_dec(n as nat));
    }
}

/// Appends a byte slice.
fn push_all(out: &mut Vec<u8>, bytes: &[u8])
    ensures
        final(out)@ == old(out)@ + bytes@,
{
    let mut i: usize = 0;
    while i < bytes.len()
        invariant
            0 <= i <= bytes@.len(),
            out@ == old(out)@ + bytes@.take(i as int),
        decreases bytes@.len() - i,
    {
        out.push(bytes[i]);
        assert(out@ =~= old(out)@ + bytes@.take(i + 1));
        i = i + 1;
    }
    assert(out@ =~= old(out)@ + bytes@);
}

/// The outcome an exec `check` result stands for.
pub open spec fn check_outcome(r: Result<usize, FrameError>) -> SpecParsed<()> {
    match r {
        Ok(p) => SpecParsed::Done((), p as int),
        Err(FrameError::Incomplete) => SpecParsed::Incomplete,
        Err(FrameError::Malformed) => SpecParsed::Malformed,
    }
}

/// The outcome an exec `parse` result stands for.
pub open spec fn parse_outcome(r: Result<(Frame, usize), FrameError>) -> SpecParsed<FrameModel> {
    match r {
        Ok((f, p)) => SpecParsed::Done(f@, p as int),
        Err(FrameError::Incomplete) => SpecParsed::Incomplete,
        Err(FrameError::Malformed) => SpecParsed::Malformed,
    }
}

/// Parsed frames already gathered, joined with what parsing the remaining
/// ones yields.
pub open spec fn elems_join(acc: Seq<FrameModel>, r: SpecParsed<Seq<FrameModel>>) -> SpecParsed<
    Seq<FrameModel>,
> {
    match r {
        SpecParsed::Incomplete => SpecParsed::Incomplete,
        SpecParsed::Malformed => SpecParsed::Malformed,
        SpecParsed::Done(rest, q) => SpecParsed::Done(acc + rest, q),
    }
}

/// The frame an array body parses to, once its elements are known.
pub open spec fn array_join(r: SpecParsed<Seq<FrameModel>>) -> SpecParsed<FrameModel> {
    match r {
        SpecParsed::Incomplete => SpecParsed::Incomplete,
        SpecParsed::Malformed => SpecParsed::Malformed,
        SpecParsed::Done(elems, q) => SpecParsed::Done(FrameModel::Array(elems), q),
    }
}

/// Reads one line holding a decimal number.
fn read_dec(buf: &[u8], pos: usize) -> (r: Result<(u64, usize), FrameError>)
    ensures
        match r {
            Ok((n, p)) => spec_parse_dec(buf@, pos as int) == SpecParsed::Done(n, p as int) && pos
                < p <= buf@.len(),
            Err(FrameError::Incomplete) => spec_parse_dec(buf@, pos as int) is Incomplete,
            Err(FrameError::Malformed) => spec_parse_dec(buf@, pos as int) is Malformed,
        },
{
    let buf_len = buf.len();
    match find_crlf_from(buf, pos) {
        None => Err(FrameError::Incomplete),
        Some(i) => {
            let line = slice_subrange(buf, pos, i);
            assert(i + 2 <= buf_len);
            match parse_u64_digits(line) {
                Some(v) => Ok((v, i + 2)),
                None => Err(FrameError::Malformed),
            }
        },
    }
}

impl Frame {
    /// Scans buffered bytes for one complete frame starting at `pos`,
    /// without building it, and reports where it ends.
    pub fn check(buf: &[u8], pos: usize) -> (r: Result<usize, FrameError>)
        ensures
            check_outcome(r) == spec_check(buf@, pos as int),
            r matches Ok(end) ==> pos < end <= buf@.len(),
        decreases buf@.len() - pos,
    {
        if pos >= buf.len() {
            if pos == buf.len() {
                return Err(FrameError::Incomplete);
            } else {
                return Err(FrameError::Malformed);
            }
        }
        let tag = buf[pos];
        if tag == 43 || tag == 45 {  // '+' or '-'
            match find_crlf_from(buf, pos + 1) {
                None => Err(FrameError::Incomplete),
                Some(i) => Ok(i + 2),
            }
        } else if tag == 58 {  // ':'
            match read_dec(buf, pos + 1) {
                Err(e) => Err(e),
                Ok((n, p)) => Ok(p),
            }
        } else if tag == 36 {  // '$'
            if pos + 1 == buf.len() {
                return Err(FrameError::Incomplete);
            }
            if buf[pos + 1] == 45 {  // '-'
                match find_crlf_from(buf, pos + 1) {
                    None => Err(FrameError::Incomplete),
                    Some(i) => Ok(i + 2),
                }
            } else {
                match read_dec(buf, pos + 1) {
                    Err(e) => Err(e),
                    Ok((n, p)) => {
                        if n > (usize::MAX - 2) as u64 {
                            return Err(FrameError::Malformed);
                        }
                        let n_us = n as usize;
                        let remaining = buf.len() - p;
                        if remaining < 2 || n_us > remaining - 2 {
                            Err(FrameError::Incomplete)
                        } else {
                            Ok(p + n_us + 2)
                        }
                    },
                }
            }
        } else if tag == 42 {  // '*'
            match read_dec(buf, pos + 1) {
                Err(e) => Err(e),
                Ok((count, p0)) => {
                    let mut p = p0;
                    let mut k: u64 = 0;
                    while k < count
                        invariant
                            pos < p <= buf@.len(),
                            k <= count,
                            spec_check(buf@, pos as int) == spec_check_elems(
                                buf@,
                                p0 as int,
                                count as int,
                            ),
                            spec_check_elems(buf@, p0 as int, count as int) == spec_check_elems(
                                buf@,
                                p as int,
                                (count - k) as int,
                            ),
                        decreases count - k,
                    {
                        match Frame::check(buf, p) {
                            Err(e) => {
                                proof {
                                    let m = (count - k) as int;
                                    if spec_check(buf@, p as int) is Incomplete {
                                        assert(spec_check_elems(buf@, p as int, m) is Incomplete);
                                    } else {
                                        assert(spec_check_elems(buf@, p as int, m) is Malformed);
                                    }
                                }
                                return Err(e);
                            },
                            Ok(end) => {
                                proof {
                                    assert(spec_check_elems(buf@, p as int, (count - k) as int)
                                        == spec_check_elems(buf@, end as int, (count - k - 1) as int));
                                }
                                p = end;
                                k = k + 1;
                            },
                        }
                    }
                    assert(spec_check_elems(buf@, p as int, 0) == SpecParsed::<()>::Done((), p as int));
                    Ok(p)
                },
            }
        } else {
            Err(FrameError::Malformed)
        }
    }

    /// Builds the frame beginning at `pos` from buffered bytes.
    pub fn parse(buf: &[u8], pos: usize) -> (r: Result<(Frame, usize), FrameError>)
        ensures
            parse_outcome(r) == spec_parse_frame(buf@, pos as int),
            r matches Ok((f, end)) ==> pos < end <= buf@.len(),
        decreases buf@.len() - pos,
    {
        if pos >= buf.len() {
            if pos == buf.len() {
                return Err(FrameError::Incomplete);
            } else {
                return Err(FrameError::Malformed);
            }
        }
        let tag = buf[pos];
        if tag == 43 {  // '+'
            match find_crlf_from(buf, pos + 1) {
                None => Err(FrameError::Incomplete),
                Some(i) => {
                    let line = slice_to_vec(slice_subrange(buf, pos + 1, i));
                    match bytes_to_string(line) {
                        Some(s) => Ok((Frame::Simple(s), i + 2)),
                        None => Err(FrameError::Malformed),
                    }
                },
            }
        } else if tag == 45 {  // '-'
            match find_crlf_from(buf, pos + 1) {
                None => Err(FrameError::Incomplete),
                Some(i) => {
                    let line = slice_to_vec(slice_subrange(buf, pos + 1, i));
                    match bytes_to_string(line) {
                        Some(s) => Ok((Frame::Error(s), i + 2)),
                        None => Err(FrameError::Malformed),
                    }
                },
            }
        } else if tag == 58 {  // ':'
            match read_dec(buf, pos + 1) {
                Err(e) => Err(e),
                Ok((n, p)) => Ok((Frame::Integer(n), p)),
            }
        } else if tag == 36 {  // '$'
            if pos + 1 == buf.len() {
                return Err(FrameError::Incomplete);
            }
            if buf[pos + 1] == 45 {  // '-'
                match find_crlf_from(buf, pos + 1) {
                    None => Err(FrameError::Incomplete),
                    Some(i) => {
                        let ghost l = buf@.subrange(pos + 1, i as int);
                        if i == pos + 3 && buf[pos + 2] == 49 {
                            proof {
                                assert(l =~= seq![45u8, 49u8]);
                            }
                            Ok((Frame::Null, i + 2))
                        } else {
                            proof {
                                if l == seq![45u8, 49u8] {
                                    assert(l.len() == 2);
                                    assert(l[1] == 49);
                                    assert(buf@[pos + 2] == 49);
                                    assert(i == pos + 3);
                                }
                            }
                            Err(FrameError::Malformed)
                        }
                    },
                }
            } else {
                match read_dec(buf, pos + 1) {
                    Err(e) => Err(e),
                    Ok((n, p)) => {
                        if n > (usize::MAX - 2) as u64 {
                            return Err(FrameError::Malformed);
                        }
                        let n_us = n as usize;
                        let remaining = buf.len() - p;
                        if remaining < 2 || n_us > remaining - 2 {
                            Err(FrameError::Incomplete)
                        } else {
                            let data = slice_to_vec(slice_subrange(buf, p, p + n_us));
                            Ok((Frame::Bulk(data), p + n_us + 2))
                        }
                    },
                }
            }
        } else if tag == 42 {  // '*'
            match read_dec(buf, pos + 1) {
                Err(e) => Err(e),
                Ok((count, p0)) => {
                    let mut p = p0;
                    let mut k: u64 = 0;
                    let mut elems: Vec<Frame> = Vec::new();
                    proof {
                        assert(seq_views(elems@) =~= Seq::<FrameModel>::empty());
                    }
                    while k < count
                        invariant
                            pos < p <= buf@.len(),
                            k <= count,
                            elems@.len() == k,
                            spec_parse_frame(buf@, pos as int) == array_join(
                                spec_parse_elems(buf@, p0 as int, count as int),
                            ),
                            elems_join(
                                seq_views(elems@),
                                spec_parse_elems(buf@, p as int, (count - k) as int),
                            ) == spec_parse_elems(buf@, p0 as int, count as int),
                        decreases count - k,
                    {
                        match Frame::parse(buf, p) {
                            Err(e) => {
                                proof {
                                    let m = (count - k) as int;
                                    if spec_parse_frame(buf@, p as int) is Incomplete {
                                        assert(spec_parse_elems(buf@, p as int, m) is Incomplete);
                                    } else {
                                        assert(spec_parse_elems(buf@, p as int, m) is Malformed);
                                    }
                                }
                                return Err(e);
                            },
                            Ok((f, end)) => {
                                proof {
                                    let m = (count - k) as int;
                                    let tail = spec_parse_elems(buf@, end as int, m - 1);
                                    assert(spec_parse_elems(buf@, p as int, m) == (match tail {
                                        SpecParsed::Incomplete => SpecParsed::<Seq<FrameModel>>::Incomplete,
                                        SpecParsed::Malformed => SpecParsed::<Seq<FrameModel>>::Malformed,
                                        SpecParsed::Done(rest, q) => SpecParsed::Done(seq![f@] + rest, q),
                                    }));
                                    lemma_seq_views_push(elems@, f);
                                    assert(seq_views(elems@.push(f)) =~= seq_views(elems@).push(f@));
                                    if tail is Done {
                                        let rest = tail->Done_0;
                                        assert(seq_views(elems@) + (seq![f@] + rest) =~= seq_views(
                                            elems@,
                                        ).push(f@) + rest);
                                    }
                                }
                                elems.push(f);
                                p = end;
                                k = k + 1;
                            },
                        }
                    }
                    proof {
                        assert(spec_parse_elems(buf@, p as int, 0) == SpecParsed::<Seq<FrameModel>>::Done(
                            Seq::empty(),
                            p as int,
                        ));
                        assert(seq_views(elems@) + Seq::<FrameModel>::empty() =~= seq_views(elems@));
                        assert(Frame::Array(elems)@ =~= FrameModel::Array(seq_views(elems@)));
                    }
                    Ok((Frame::Array(elems), p))
                },
            }
        } else {
            Err(FrameError::Malformed)
        }
    }
}

/// Encoding a concatenation of elements encodes each in turn.
pub proof fn lemma_encode_elems_concat(a: Seq<FrameModel>, b: Seq<FrameModel>)
    ensures
        spec_encode_elems(a + b) =~= spec_encode_elems(a) + spec_encode_elems(b),
    decreases a.len(),
{
    if a.len() == 0 {
        assert(a + b =~= b);
        assert(spec_encode_elems(a) =~= Seq::<u8>::empty());
    } else {
        assert((a + b).len() > 0);
        assert((a + b).first() == a.first());
        assert((a + b).drop_first() =~= a.drop_first() + b);
        lemma_encode_elems_concat(a.drop_first(), b);
    }
}

/// True when no byte is CR or LF.
fn bytes_crlf_free(b: &[u8]) -> (r: bool)
    ensures
        r == crlf_free(b@),
{
    let mut i: usize = 0;
    while i < b.len()
        invariant
            0 <= i <= b@.len(),
            forall|j: int| 0 <= j < i ==> #[trigger] b@[j] != 13 && b@[j] != 10,
        decreases b@.len() - i,
    {
        if b[i] == 13 || b[i] == 10 {
            return false;
        }
        i = i + 1;
    }
    true
}

impl Frame {
    /// True when this frame can stand as one value on the wire.
    fn is_clean_value(&self) -> (r: bool)
        ensures
            r == wf_value(self@),
    {
        match self {
            Frame::Simple(s) => bytes_crlf_free(s.as_str().as_bytes()),
            Frame::Error(s) => bytes_crlf_free(s.as_str().as_bytes()),
            Frame::Integer(n) => true,
            Frame::Bulk(b) => true,
            Frame::Null => true,
            Frame::Array(v) => false,
        }
    }

    /// True when this frame may be written to the wire: a clean value, or an
    /// array of clean values.
    pub fn is_encodable(&self) -> (r: bool)
        ensures
            r == encodable(self@),
    {
        match self {
            Frame::Array(v) => {
                proof {
                    lemma_seq_views_props(v@);
                }
                let n = v.len();
                assert(v@.len() <= u64::MAX);
                let mut i: usize = 0;
                while i < n
                    invariant
                        0 <= i <= v@.len(),
                        n == v@.len(),
                        self@ == FrameModel::Array(seq_views(v@)),
                        v@.len() <= u64::MAX,
                        seq_views(v@).len() == v@.len(),
                        forall|j: int| 0 <= j < v@.len() ==> seq_views(v@)[j] == frame_model(
                            #[trigger] v@[j],
                        ),
                        forall|j: int| 0 <= j < i ==> wf_value(#[trigger] seq_views(v@)[j]),
                    decreases v@.len() - i,
                {
                    if !v[i].is_clean_value() {
                        return false;
                    }
                    i = i + 1;
                }
                true
            },
            _ => self.is_clean_value(),
        }
    }

    /// Appends the wire form of one non-array frame.
    fn encode_value(&self, out: &mut Vec<u8>)
        requires
            wf_value(self@),
        ensures
            final(out)@ == old(out)@ + spec_encode_value(self@),
    {
        match self {
            Frame::Simple(s) => {
                out.push(43);
                push_all(out, s.as_str().as_bytes());
                out.push(13);
                out.push(10);
                assert(final(out)@ =~= old(out)@ + spec_encode_value(self@));
            },
            Frame::Error(s) => {
                out.push(45);
                push_all(out, s.as_str().as_bytes());
                out.push(13);
                out.push(10);
                assert(final(out)@ =~= old(out)@ + spec_encode_value(self@));
            },
            Frame::Integer(n) => {
                out.push(58);
                push_dec(out, *n);
                out.push(13);
                out.push(10);
                assert(final(out)@ =~= old(out)@ + spec_encode_value(self@));
            },
            Frame::Bulk(b) => {
                out.push(36);
                push_dec(out, b.len() as u64);
                out.push(13);
                out.push(10);
                push_all(out, b.as_slice());
                out.push(13);
                out.push(10);
                assert(final(out)@ =~= old(out)@ + spec_encode_value(self@));
            },
            Frame::Null => {
                out.push(36);
                out.push(45);
                out.push(49);
                out.push(13);
                out.push(10);
                assert(final(out)@ =~= old(out)@ + spec_encode_value(self@));
            },
            Frame::Array(v) => {
                proof {
                    assert(false);
                }
            },
        }
    }

    /// Appends this frame's wire form: an array is written as its counted
    /// header followed by each element as one value.
    pub fn encode(&self, out: &mut Vec<u8>)
        requires
            encodable(self@),
        ensures
            final(out)@ == old(out)@ + spec_encode(self@),
    {
        match self {
            Frame::Array(v) => {
                proof {
                    lemma_seq_views_props(v@);
                }
                out.push(42);
                push_dec(out, v.len() as u64);
                out.push(13);
                out.push(10);
                let ghost base = out@;
                proof {
                    assert(base =~= old(out)@ + (seq![42u8] + spec_dec(v@.len()) + seq![
                        13u8,
                        10u8,
                    ]));
                    assert(spec_encode_elems(seq_views(v@).take(0)) =~= Seq::<u8>::empty());
                    assert(base + spec_encode_elems(seq_views(v@).take(0)) =~= base);
                }
                let mut i: usize = 0;
                while i < v.len()
                    invariant
                        0 <= i <= v@.len(),
                        seq_views(v@).len() == v@.len(),
                        forall|j: int| 0 <= j < v@.len() ==> seq_views(v@)[j] == frame_model(
                            #[trigger] v@[j],
                        ),
                        forall|j: int| 0 <= j < v@.len() ==> wf_value(#[trigger] seq_views(v@)[j]),
                        out@ == base + spec_encode_elems(seq_views(v@).take(i as int)),
                    decreases v@.len() - i,
                {
                    v[i].encode_value(out);
                    proof {
                        let m = seq_views(v@);
                        assert(m.take(i + 1) =~= m.take(i as int) + seq![m[i as int]]);
                        lemma_encode_elems_concat(m.take(i as int), seq![m[i as int]]);
                        assert(seq![m[i as int]].drop_first() =~= Seq::<FrameModel>::empty());
                        assert(spec_encode_elems(Seq::<FrameModel>::empty()) =~= Seq::<u8>::empty());
                        assert(spec_encode_elems(seq![m[i as int]]) =~= spec_encode_value(
                            m[i as int],
                        ));
                        assert(out@ =~= base + spec_encode_elems(m.take(i + 1)));
                    }
                    i = i + 1;
                }
                proof {
                    assert(seq_views(v@).take(v@.len() as int) =~= seq_views(v@));
                    assert(final(out)@ =~= old(out)@ + spec_encode(self@));
                }
            },
            _ => {
                self.encode_value(out);
            },
        }
    }
}

/// Encodes a frame for the wire, if it is one this system may emit:
/// nested arrays, and text holding CR or LF, have no wire form.
pub fn encode_frame(f: &Frame) -> (r: Option<Vec<u8>>)
    ensures
        match r {
            Some(v) => encodable(f@) && v@ == spec_encode(f@),
            None => !encodable(f@),
        },
{
    if f.is_encodable() {
        let mut out: Vec<u8> = Vec::new();
        f.encode(&mut out);
        proof {
            assert(Seq::<u8>::empty() + spec_encode(f@) =~= spec_encode(f@));
        }
        Some(out)
    } else {
        None
    }
}

/// Tries to read one frame from the front of buffered bytes: the frame and
/// how many bytes it took, `None` when more bytes are needed, an error when
/// the bytes cannot be a frame.
pub fn try_parse_frame(buf: &[u8]) -> (r: Result<Option<(Frame, usize)>, FrameError>)
    ensures
        r matches Ok(Some((f, len))) ==> spec_check(buf@, 0) is Done && spec_parse_frame(buf@, 0)
            == SpecParsed::Done(f@, len as int) && 0 < len <= buf@.len(),
        r matches Ok(None) <==> spec_check(buf@, 0) is Incomplete,
        r is Err <==> (spec_check(buf@, 0) is Malformed || (spec_check(buf@, 0) is Done && !(
        spec_parse_frame(buf@, 0) is Done))),
{
    match Frame::check(buf, 0) {
        Err(FrameError::Incomplete) => Ok(None),
        Err(FrameError::Malformed) => Err(FrameError::Malformed),
        Ok(_) => match Frame::parse(buf, 0) {
            Ok((f, p)) => Ok(Some((f, p))),
            Err(e) => Err(e),
        },
    }
}

/// The canonical decimal form of a number is a non-empty digit string whose
/// value is that number.
pub proof fn lemma_spec_dec_props(n: nat)
    ensures
        spec_dec(n).len() >= 1,
        all_digits(spec_dec(n)),
        digits_val(spec_dec(n)) == n,
    decreases n,
{
    if n < 10 {
        let d = spec_dec(n);
        assert(d.drop_last() =~= Seq::<u8>::empty());
        assert(digits_val(Seq::<u8>::empty()) == 0);
        assert(d.last() == (48 + n) as u8);
        assert(digits_val(d) == n);
    } else {
        lemma_spec_dec_props(n / 10);
        let t = spec_dec(n / 10);
        let b = (48 + n % 10) as u8;
        assert(t.push(b).drop_last() =~= t);
        assert(t.push(b).last() == b);
        vstd::arithmetic::div_mod::lemma_fundamental_div_mod(n as int, 10);
        assert(digits_val(spec_dec(n)) == n);
        assert forall|i: int| 0 <= i < spec_dec(n).len() implies is_digit(spec_dec(n)[i]) by {
            if i < t.len() {
                assert(spec_dec(n)[i] == t[i]);
            } else {
                assert(spec_dec(n)[i] == b);
            }
        }
    }
}

/// Where the first CRLF lies once no CR occurs before it.
proof fn lemma_find_crlf_at(s: Seq<u8>, pos: int, e: int)
    requires
        0 <= pos <= e,
        e + 2 <= s.len(),
        s[e] == 13,
        s[e + 1] == 10,
        forall|i: int| pos <= i < e ==> s[i] != 13,
    ensures
        find_crlf(s, pos) == Some(e),
    decreases e - pos,
{
    if pos == e {
    } else {
        lemma_find_crlf_at(s, pos + 1, e);
    }
}

/// A line whose content is free of CR, laid out at `pos` and terminated by
/// CRLF, parses to exactly that content.
proof fn lemma_parse_line_at(s: Seq<u8>, pos: int, content: Seq<u8>)
    requires
        0 <= pos,
        pos + content.len() + 2 <= s.len(),
        s.subrange(pos, pos + content.len() as int) == content,
        s[pos + content.len() as int] == 13,
        s[pos + content.len() as int + 1] == 10,
        forall|i: int| 0 <= i < content.len() ==> #[trigger] content[i] != 13,
    ensures
        spec_parse_line(s, pos) == SpecParsed::Done(content, pos + content.len() + 2),
{
    let e = pos + content.len() as int;
    assert forall|i: int| pos <= i < e implies s[i] != 13 by {
        assert(s.subrange(pos, e)[i - pos] == s[i]);
        assert(content[i - pos] != 13);
    }
    lemma_find_crlf_at(s, pos, e);
}

/// A decimal line holding the canonical form of `n` parses to `n`.
proof fn lemma_parse_dec_at(s: Seq<u8>, pos: int, n: u64)
    requires
        0 <= pos,
        pos + spec_dec(n as nat).len() + 2 <= s.len(),
        s.subrange(pos, pos + spec_dec(n as nat).len() as int) == spec_dec(n as nat),
        s[pos + spec_dec(n as nat).len() as int] == 13,
        s[pos + spec_dec(n as nat).len() as int + 1] == 10,
    ensures
        spec_parse_dec(s, pos) == SpecParsed::Done(n, pos + spec_dec(n as nat).len() + 2),
{
    let d = spec_dec(n as nat);
    lemma_spec_dec_props(n as nat);
    assert(forall|i: int| 0 <= i < d.len() ==> #[trigger] d[i] != 13);
    lemma_parse_line_at(s, pos, d);
    assert(dec_line_ok(d));
}

/// Every value frame occupies at least its tag and terminator on the wire.
proof fn lemma_encode_value_len(f: FrameModel)
    requires
        !(f is Array),
    ensures
        spec_encode_value(f).len() >= 3,
{
}

/// A well-formed value frame laid out at `pos` parses back to itself.
proof fn lemma_parse_value_at(f: FrameModel, s: Seq<u8>, pos: int)
    requires
        wf_value(f),
        sizes_ok(f),
        0 <= pos,
        pos + spec_encode_value(f).len() <= s.len(),
        s.subrange(pos, pos + spec_encode_value(f).len() as int) == spec_encode_value(f),
    ensures
        spec_parse_frame(s, pos) == SpecParsed::Done(f, pos + spec_encode_value(f).len()),
{
    let enc = spec_encode_value(f);
    assert forall|i: int| 0 <= i < enc.len() implies s[pos + i] == #[trigger] enc[i] by {
        assert(s.subrange(pos, pos + enc.len() as int)[i] == s[pos + i]);
    }
    match f {
        FrameModel::Simple(t) => {
            let eb = encode_utf8(t);
            assert(s[pos] == enc[0] == 43);
            assert forall|i: int| 0 <= i < eb.len() implies s.subrange(
                pos + 1,
                pos + 1 + eb.len() as int,
            )[i] == #[trigger] eb[i] by {
                assert(enc[1 + i] == eb[i]);
            }
            assert(s.subrange(pos + 1, pos + 1 + eb.len() as int) =~= eb);
            assert(s[pos + 1 + eb.len() as int] == enc[1 + eb.len() as int] == 13);
            assert(s[pos + 1 + eb.len() as int + 1] == enc[1 + eb.len() as int + 1] == 10);
            lemma_parse_line_at(s, pos + 1, eb);
            encode_utf8_valid_utf8(t);
            encode_utf8_decode_utf8(t);
            assert(spec_parse_frame(s, pos) == SpecParsed::Done(f, pos + enc.len()));
        },
        FrameModel::Error(t) => {
            let eb = encode_utf8(t);
            assert(s[pos] == enc[0] == 45);
            assert forall|i: int| 0 <= i < eb.len() implies s.subrange(
                pos + 1,
                pos + 1 + eb.len() as int,
            )[i] == #[trigger] eb[i] by {
                assert(enc[1 + i] == eb[i]);
            }
            assert(s.subrange(pos + 1, pos + 1 + eb.len() as int) =~= eb);
            assert(s[pos + 1 + eb.len() as int] == enc[1 + eb.len() as int] == 13);
            assert(s[pos + 1 + eb.len() as int + 1] == enc[1 + eb.len() as int + 1] == 10);
            lemma_parse_line_at(s, pos + 1, eb);
            encode_utf8_valid_utf8(t);
            encode_utf8_decode_utf8(t);
            assert(spec_parse_frame(s, pos) == SpecParsed::Done(f, pos + enc.len()));
        },
        FrameModel::Integer(n) => {
            let d = spec_dec(n as nat);
            assert(s[pos] == enc[0] == 58);
            assert forall|i: int| 0 <= i < d.len() implies s.subrange(
                pos + 1,
                pos + 1 + d.len() as int,
            )[i] == #[trigger] d[i] by {
                assert(enc[1 + i] == d[i]);
            }
            assert(s.subrange(pos + 1, pos + 1 + d.len() as int) =~= d);
            assert(s[pos + 1 + d.len() as int] == enc[1 + d.len() as int] == 13);
            assert(s[pos + 1 + d.len() as int + 1] == enc[1 + d.len() as int + 1] == 10);
            lemma_parse_dec_at(s, pos + 1, n);
            assert(spec_parse_frame(s, pos) == SpecParsed::Done(f, pos + enc.len()));
        },
        FrameModel::Null => {
            assert(s[pos] == enc[0] == 36);
            assert(s[pos + 1] == enc[1] == 45);
            let content = seq![45u8, 49u8];
            assert forall|i: int| 0 <= i < content.len() implies s.subrange(
                pos + 1,
                pos + 3,
            )[i] == #[trigger] content[i] by {
                assert(enc[1 + i] == content[i]);
            }
            assert(s.subrange(pos + 1, pos + 3) =~= content);
            assert(s[pos + 3] == enc[3] == 13);
            assert(s[pos + 4] == enc[4] == 10);
            lemma_parse_line_at(s, pos + 1, content);
            assert(spec_parse_frame(s, pos) == SpecParsed::Done(f, pos + enc.len()));
        },
        FrameModel::Bulk(b) => {
            let nv = b.len() as u64;
            let d = spec_dec(b.len());
            assert(nv as nat == b.len());
            lemma_spec_dec_props(b.len());
            assert(s[pos] == enc[0] == 36);
            assert(s[pos + 1] == enc[1] == d[0]);
            assert(is_digit(d[0]));
            assert(s[pos + 1] != 45);
            assert forall|i: int| 0 <= i < d.len() implies s.subrange(
                pos + 1,
                pos + 1 + d.len() as int,
            )[i] == #[trigger] d[i] by {
                assert(enc[1 + i] == d[i]);
            }
            assert(s.subrange(pos + 1, pos + 1 + d.len() as int) =~= d);
            assert(s[pos + 1 + d.len() as int] == enc[1 + d.len() as int] == 13);
            assert(s[pos + 1 + d.len() as int + 1] == enc[1 + d.len() as int + 1] == 10);
            lemma_parse_dec_at(s, pos + 1, nv);
            let p = pos + 1 + d.len() + 2;
            assert(spec_parse_dec(s, pos + 1) == SpecParsed::Done(nv, p as int));
            assert(!(nv > usize::MAX - 2));
            assert(p + nv + 2 <= s.len());
            assert forall|i: int| 0 <= i < b.len() implies s.subrange(
                p as int,
                p + nv as int,
            )[i] == #[trigger] b[i] by {
                assert(enc[1 + d.len() + 2 + i] == b[i]);
                assert(s[p + i] == enc[1 + d.len() + 2 + i]);
            }
            assert(s.subrange(p as int, p + nv as int) =~= b);
            assert(spec_parse_frame(s, pos) == SpecParsed::Done(f, pos + enc.len()));
        },
        FrameModel::Array(..) => {
            assert(false);
        },
    }
}

/// Consecutive well-formed value frames laid out at `pos` parse back to
/// themselves.
proof fn lemma_parse_elems_at(elems: Seq<FrameModel>, s: Seq<u8>, pos: int)
    requires
        forall|i: int| 0 <= i < elems.len() ==> wf_value(#[trigger] elems[i]),
        forall|i: int| 0 <= i < elems.len() ==> sizes_ok(#[trigger] elems[i]),
        0 <= pos,
        pos + spec_encode_elems(elems).len() <= s.len(),
        s.subrange(pos, pos + spec_encode_elems(elems).len() as int) == spec_encode_elems(elems),
    ensures
        spec_parse_elems(s, pos, elems.len() as int) == SpecParsed::Done(
            elems,
            pos + spec_encode_elems(elems).len(),
        ),
    decreases elems.len(),
{
    let el = spec_encode_elems(elems);
    if elems.len() == 0 {
        assert(elems =~= Seq::<FrameModel>::empty());
        assert(spec_parse_elems(s, pos, 0) == SpecParsed::Done(Seq::<FrameModel>::empty(), pos));
    } else {
        let f = elems.first();
        let ev = spec_encode_value(f);
        let rest = spec_encode_elems(elems.drop_first());
        assert(el == ev + rest);
        assert forall|i: int| 0 <= i < el.len() implies s[pos + i] == #[trigger] el[i] by {
            assert(s.subrange(pos, pos + el.len() as int)[i] == s[pos + i]);
        }
        assert forall|i: int| 0 <= i < ev.len() implies s.subrange(
            pos,
            pos + ev.len() as int,
        )[i] == #[trigger] ev[i] by {
            assert(el[i] == ev[i]);
        }
        assert(s.subrange(pos, pos + ev.len() as int) =~= ev);
        lemma_parse_value_at(f, s, pos);
        lemma_encode_value_len(f);
        let p1 = pos + ev.len() as int;
        assert forall|i: int| 0 <= i < rest.len() implies s.subrange(
            p1,
            p1 + rest.len() as int,
        )[i] == #[trigger] rest[i] by {
            assert(el[ev.len() + i] == rest[i]);
            assert(s[p1 + i] == el[ev.len() + i]);
        }
        assert(s.subrange(p1, p1 + rest.len() as int) =~= rest);
        lemma_parse_elems_at(elems.drop_first(), s, p1);
        assert(seq![f] + elems.drop_first() =~= elems);
        assert(spec_parse_elems(s, pos, elems.len() as int) == SpecParsed::Done(
            elems,
            pos + el.len(),
        ));
    }
}

/// Round trip at any position: the encoding of a frame this system may emit,
/// laid out inside a larger byte sequence, parses back to exactly that frame
/// and consumes exactly its encoding.
pub proof fn lemma_parse_encoding_at(f: FrameModel, s: Seq<u8>, pos: int)
    requires
        encodable(f),
        sizes_ok(f),
        0 <= pos,
        pos + spec_encode(f).len() <= s.len(),
        s.subrange(pos, pos + spec_encode(f).len() as int) == spec_encode(f),
    ensures
        spec_parse_frame(s, pos) == SpecParsed::Done(f, pos + spec_encode(f).len()),
{
    let enc = spec_encode(f);
    if !(f is Array) {
        lemma_parse_value_at(f, s, pos);
    } else {
        let elems = f->Array_0;
        let nv = elems.len() as u64;
        let d = spec_dec(elems.len());
        let el = spec_encode_elems(elems);
        assert(nv as nat == elems.len());
        lemma_spec_dec_props(elems.len());
        assert forall|i: int| 0 <= i < enc.len() implies s[pos + i] == #[trigger] enc[i] by {
            assert(s.subrange(pos, pos + enc.len() as int)[i] == s[pos + i]);
        }
        assert(s[pos] == enc[0] == 42);
        assert forall|i: int| 0 <= i < d.len() implies s.subrange(
            pos + 1,
            pos + 1 + d.len() as int,
        )[i] == #[trigger] d[i] by {
            assert(enc[1 + i] == d[i]);
        }
        assert(s.subrange(pos + 1, pos + 1 + d.len() as int) =~= d);
        assert(s[pos + 1 + d.len() as int] == enc[1 + d.len() as int] == 13);
        assert(s[pos + 1 + d.len() as int + 1] == enc[1 + d.len() as int + 1] == 10);
        lemma_parse_dec_at(s, pos + 1, nv);
        let p = pos + 1 + d.len() + 2;
        assert(spec_parse_dec(s, pos + 1) == SpecParsed::Done(nv, p as int));
        assert forall|i: int| 0 <= i < el.len() implies s.subrange(
            p as int,
            p + el.len() as int,
        )[i] == #[trigger] el[i] by {
            assert(enc[1 + d.len() + 2 + i] == el[i]);
            assert(s[p + i] == enc[1 + d.len() + 2 + i]);
        }
        assert(s.subrange(p as int, p + el.len() as int) =~= el);
        lemma_parse_elems_at(elems, s, p as int);
        assert(spec_parse_frame(s, pos) == SpecParsed::Done(f, pos + enc.len()));
    }
}

/// A well-formed value frame laid out at `pos` passes the structural scan.
proof fn lemma_check_value_at(f: FrameModel, s: Seq<u8>, pos: int)
    requires
        wf_value(f),
        sizes_ok(f),
        0 <= pos,
        pos + spec_encode_value(f).len() <= s.len(),
        s.subrange(pos, pos + spec_encode_value(f).len() as int) == spec_encode_value(f),
    ensures
        spec_check(s, pos) == SpecParsed::Done((), pos + spec_encode_value(f).len()),
{
    let enc = spec_encode_value(f);
    assert forall|i: int| 0 <= i < enc.len() implies s[pos + i] == #[trigger] enc[i] by {
        assert(s.subrange(pos, pos + enc.len() as int)[i] == s[pos + i]);
    }
    match f {
        FrameModel::Simple(t) => {
            let eb = encode_utf8(t);
            assert(s[pos] == enc[0] == 43);
            assert forall|i: int| 0 <= i < eb.len() implies s.subrange(
                pos + 1,
                pos + 1 + eb.len() as int,
            )[i] == #[trigger] eb[i] by {
                assert(enc[1 + i] == eb[i]);
            }
            assert(s.subrange(pos + 1, pos + 1 + eb.len() as int) =~= eb);
            assert(s[pos + 1 + eb.len() as int] == enc[1 + eb.len() as int] == 13);
            assert(s[pos + 1 + eb.len() as int + 1] == enc[1 + eb.len() as int + 1] == 10);
            lemma_parse_line_at(s, pos + 1, eb);
        },
        FrameModel::Error(t) => {
            let eb = encode_utf8(t);
            assert(s[pos] == enc[0] == 45);
            assert forall|i: int| 0 <= i < eb.len() implies s.subrange(
                pos + 1,
                pos + 1 + eb.len() as int,
            )[i] == #[trigger] eb[i] by {
                assert(enc[1 + i] == eb[i]);
            }
            assert(s.subrange(pos + 1, pos + 1 + eb.len() as int) =~= eb);
            assert(s[pos + 1 + eb.len() as int] == enc[1 + eb.len() as int] == 13);
            assert(s[pos + 1 + eb.len() as int + 1] == enc[1 + eb.len() as int + 1] == 10);
            lemma_parse_line_at(s, pos + 1, eb);
        },
        FrameModel::Integer(n) => {
            let d = spec_dec(n as nat);
            assert(s[pos] == enc[0] == 58);
            assert forall|i: int| 0 <= i < d.len() implies s.subrange(
                pos + 1,
                pos + 1 + d.len() as int,
            )[i] == #[trigger] d[i] by {
                assert(enc[1 + i] == d[i]);
            }
            assert(s.subrange(pos + 1, pos + 1 + d.len() as int) =~= d);
            assert(s[pos + 1 + d.len() as int] == enc[1 + d.len() as int] == 13);
            assert(s[pos + 1 + d.len() as int + 1] == enc[1 + d.len() as int + 1] == 10);
            lemma_parse_dec_at(s, pos + 1, n);
        },
        FrameModel::Null => {
            assert(s[pos] == enc[0] == 36);
            assert(s[pos + 1] == enc[1] == 45);
            let content = seq![45u8, 49u8];
            assert forall|i: int| 0 <= i < content.len() implies s.subrange(
                pos + 1,
                pos + 3,
            )[i] == #[trigger] content[i] by {
                assert(enc[1 + i] == content[i]);
            }
            assert(s.subrange(pos + 1, pos + 3) =~= content);
            assert(s[pos + 3] == enc[3] == 13);
            assert(s[pos + 4] == enc[4] == 10);
            lemma_parse_line_at(s, pos + 1, content);
        },
        FrameModel::Bulk(b) => {
            let nv = b.len() as u64;
            let d = spec_dec(b.len());
            assert(nv as nat == b.len());
            lemma_spec_dec_props(b.len());
            assert(s[pos] == enc[0] == 36);
            assert(s[pos + 1] == enc[1] == d[0]);
            assert(is_digit(d[0]));
            assert(s[pos + 1] != 45);
            assert forall|i: int| 0 <= i < d.len() implies s.subrange(
                pos + 1,
                pos + 1 + d.len() as int,
            )[i] == #[trigger] d[i] by {
                assert(enc[1 + i] == d[i]);
            }
            assert(s.subrange(pos + 1, pos + 1 + d.len() as int) =~= d);
            assert(s[pos + 1 + d.len() as int] == enc[1 + d.len() as int] == 13);
            assert(s[pos + 1 + d.len() as int + 1] == enc[1 + d.len() as int + 1] == 10);
            lemma_parse_dec_at(s, pos + 1, nv);
            let p = pos + 1 + d.len() + 2;
            assert(spec_parse_dec(s, pos + 1) == SpecParsed::Done(nv, p as int));
            assert(!(nv > usize::MAX - 2));
            assert(p + nv + 2 <= s.len());
            assert(spec_check(s, pos) == SpecParsed::Done((), pos + enc.len()));
        },
        FrameModel::Array(..) => {
            assert(false);
        },
    }
}

/// Consecutive well-formed value frames laid out at `pos` pass the
/// structural scan.
proof fn lemma_check_elems_at(elems: Seq<FrameModel>, s: Seq<u8>, pos: int)
    requires
        forall|i: int| 0 <= i < elems.len() ==> wf_value(#[trigger] elems[i]),
        forall|i: int| 0 <= i < elems.len() ==> sizes_ok(#[trigger] elems[i]),
        0 <= pos,
        pos + spec_encode_elems(elems).len() <= s.len(),
        s.subrange(pos, pos + spec_encode_elems(elems).len() as int) == spec_encode_elems(elems),
    ensures
        spec_check_elems(s, pos, elems.len() as int) == SpecParsed::Done(
            (),
            pos + spec_encode_elems(elems).len(),
        ),
    decreases elems.len(),
{
    let el = spec_encode_elems(elems);
    if elems.len() == 0 {
    } else {
        let f = elems.first();
        let ev = spec_encode_value(f);
        let rest = spec_encode_elems(elems.drop_first());
        assert(el == ev + rest);
        assert forall|i: int| 0 <= i < el.len() implies s[pos + i] == #[trigger] el[i] by {
            assert(s.subrange(pos, pos + el.len() as int)[i] == s[pos + i]);
        }
        assert forall|i: int| 0 <= i < ev.len() implies s.subrange(
            pos,
            pos + ev.len() as int,
        )[i] == #[trigger] ev[i] by {
            assert(el[i] == ev[i]);
        }
        assert(s.subrange(pos, pos + ev.len() as int) =~= ev);
        lemma_check_value_at(f, s, pos);
        lemma_encode_value_len(f);
        let p1 = pos + ev.len() as int;
        assert forall|i: int| 0 <= i < rest.len() implies s.subrange(
            p1,
            p1 + rest.len() as int,
        )[i] == #[trigger] rest[i] by {
            assert(el[ev.len() + i] == rest[i]);
            assert(s[p1 + i] == el[ev.len() + i]);
        }
        assert(s.subrange(p1, p1 + rest.len() as int) =~= rest);
        lemma_check_elems_at(elems.drop_first(), s, p1);
    }
}

/// The structural scan accepts the encoding of a frame this system may
/// emit, wherever it lies in a buffer, and reports exactly its end.
pub proof fn lemma_check_encoding_at(f: FrameModel, s: Seq<u8>, pos: int)
    requires
        encodable(f),
        sizes_ok(f),
        0 <= pos,
        pos + spec_encode(f).len() <= s.len(),
        s.subrange(pos, pos + spec_encode(f).len() as int) == spec_encode(f),
    ensures
        spec_check(s, pos) == SpecParsed::Done((), pos + spec_encode(f).len()),
{
    let enc = spec_encode(f);
    if !(f is Array) {
        lemma_check_value_at(f, s, pos);
    } else {
        let elems = f->Array_0;
        let nv = elems.len() as u64;
        let d = spec_dec(elems.len());
        let el = spec_encode_elems(elems);
        assert(nv as nat == elems.len());
        lemma_spec_dec_props(elems.len());
        assert forall|i: int| 0 <= i < enc.len() implies s[pos + i] == #[trigger] enc[i] by {
            assert(s.subrange(pos, pos + enc.len() as int)[i] == s[pos + i]);
        }
        assert(s[pos] == enc[0] == 42);
        assert forall|i: int| 0 <= i < d.len() implies s.subrange(
            pos + 1,
            pos + 1 + d.len() as int,
        )[i] == #[trigger] d[i] by {
            assert(enc[1 + i] == d[i]);
        }
        assert(s.subrange(pos + 1, pos + 1 + d.len() as int) =~= d);
        assert(s[pos + 1 + d.len() as int] == enc[1 + d.len() as int] == 13);
        assert(s[pos + 1 + d.len() as int + 1] == enc[1 + d.len() as int + 1] == 10);
        lemma_parse_dec_at(s, pos + 1, nv);
        let p = pos + 1 + d.len() + 2;
        assert(spec_parse_dec(s, pos + 1) == SpecParsed::Done(nv, p as int));
        assert forall|i: int| 0 <= i < el.len() implies s.subrange(
            p as int,
            p + el.len() as int,
        )[i] == #[trigger] el[i] by {
            assert(enc[1 + d.len() + 2 + i] == el[i]);
            assert(s[p + i] == enc[1 + d.len() + 2 + i]);
        }
        assert(s.subrange(p as int, p + el.len() as int) =~= el);
        lemma_check_elems_at(elems, s, p as int);
        assert(spec_check(s, pos) == SpecParsed::Done((), pos + enc.len()));
    }
}

/// ASCII text that holds neither carriage return nor line feed encodes to
/// bytes free of both, so it can stand in a simple or error frame.
pub proof fn lemma_ascii_clean_text(t: Seq<char>)
    requires
        is_ascii_chars(t),
        forall|i: int| 0 <= i < t.len() ==> #[trigger] t[i] != '\r' && t[i] != '\n',
    ensures
        crlf_free(encode_utf8(t)),
{
    is_ascii_chars_encode_utf8(t);
    let eb = encode_utf8(t);
    assert forall|i: int| 0 <= i < eb.len() implies #[trigger] eb[i] != 13 && eb[i] != 10 by {
        assert(t[i] as u8 == eb[i]);
        assert('\0' <= t[i] <= '\u{7f}');
        if eb[i] == 13 {
            assert(t[i] == '\r');
        }
        if eb[i] == 10 {
            assert(t[i] == '\n');
        }
    }
}

/// Round-trip framing: parsing the encoding of any frame this system may
/// emit yields that frame back, consuming the whole encoding.
pub proof fn lemma_frame_round_trip(f: FrameModel)
    requires
        encodable(f),
        sizes_ok(f),
    ensures
        spec_parse_frame(spec_encode(f), 0) == SpecParsed::Done(f, spec_encode(f).len() as int),
{
    let enc = spec_encode(f);
    assert(enc.subrange(0, enc.len() as int) =~= enc);
    lemma_parse_encoding_at(f, enc, 0);
}

/// Round trip through a read buffer: a buffer that starts with the
/// encoding of a frame this system may emit — whatever follows it — is
/// scanned and parsed back to exactly that frame, consuming exactly the
/// encoding.  This is what makes one side's writes readable on the other
/// across arbitrary packet boundaries.
pub proof fn lemma_buffer_round_trip(f: FrameModel, buf: Seq<u8>)
    requires
        encodable(f),
        sizes_ok(f),
        spec_encode(f).len() <= buf.len(),
        buf.subrange(0, spec_encode(f).len() as int) == spec_encode(f),
    ensures
        spec_check(buf, 0) == SpecParsed::Done((), spec_encode(f).len() as int),
        spec_parse_frame(buf, 0) == SpecParsed::Done(f, spec_encode(f).len() as int),
{
    lemma_check_encoding_at(f, buf, 0);
    lemma_parse_encoding_at(f, buf, 0);
}

} // verus!
