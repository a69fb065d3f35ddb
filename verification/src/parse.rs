//! A cursor over the elements of an array frame.
//!
//! Commands arrive as arrays of tokens.  [`Parse`] walks them in order with
//! typed extractors; running out of tokens is its own condition,
//! [`ParseError::EndOfStream`], because commands use it to detect the end
//! of optional arguments.

use vstd::prelude::*;
use vstd::slice::*;
use vstd::string::*;
use vstd::utf8::*;

use crate::bridge::bytes_to_string;
use crate::frame::{
    dec_line_ok, digits_val, parse_u64_digits, seq_views, Frame, FrameModel,
};
use crate::text::clone_bytes;

verus! {

/// How reading a token can fail.
#[derive(Debug)]
pub enum ParseError {
    /// Every token has been consumed.
    EndOfStream,
    /// The token at hand cannot be read at the requested type, or the
    /// frame is not the array a command must be.
    Protocol,
}

/// The text a token stands for: simple strings are already text, bulk
/// bytes are read as UTF-8, nothing else qualifies.
pub open spec fn token_as_string(t: FrameModel) -> Option<Seq<char>> {
    match t {
        FrameModel::Simple(s) => Some(s),
        FrameModel::Bulk(b) => if valid_utf8(b) {
            Some(decode_utf8(b))
        } else {
            None
        },
        _ => None,
    }
}

/// The bytes a token stands for: bulk bytes as they are, simple strings as
/// their UTF-8 bytes, nothing else qualifies.
pub open spec fn token_as_bytes(t: FrameModel) -> Option<Seq<u8>> {
    match t {
        FrameModel::Simple(s) => Some(encode_utf8(s)),
        FrameModel::Bulk(b) => Some(b),
        _ => None,
    }
}

/// The number a token stands for: an integer as it is, text parsed as an
/// unsigned decimal.
pub open spec fn token_as_int(t: FrameModel) -> Option<u64> {
    match t {
        FrameModel::Integer(n) => Some(n),
        FrameModel::Simple(s) => if dec_line_ok(encode_utf8(s)) {
            Some(digits_val(encode_utf8(s)) as u64)
        } else {
            None
        },
        FrameModel::Bulk(b) => if dec_line_ok(b) {
            Some(digits_val(b) as u64)
        } else {
            None
        },
        _ => None,
    }
}

/// A forward cursor over the tokens of an array frame.
pub struct Parse {
    parts: Vec<Frame>,
    pos: usize,
}

impl Parse {
    /// The tokens being walked.
    pub closed spec fn tokens(self) -> Seq<FrameModel> {
        seq_views(self.parts@)
    }

    /// How many tokens have been consumed.
    pub closed spec fn pos_spec(self) -> int {
        self.pos as int
    }

    /// The cursor never runs past the end.
    pub open spec fn wf(self) -> bool {
        0 <= self.pos_spec() <= self.tokens().len()
    }

    /// The tokens not yet consumed.
    pub open spec fn remaining(self) -> Seq<FrameModel> {
        self.tokens().skip(self.pos_spec())
    }

    /// Wraps an array frame for token-by-token extraction; any other frame
    /// is a protocol error.
    pub fn new(frame: Frame) -> (r: Result<Parse, ParseError>)
        ensures
            match r {
                Ok(p) => frame@ is Array && p.tokens() == frame@->Array_0 && p.pos_spec() == 0
                    && p.wf(),
                Err(e) => e is Protocol && !(frame@ is Array),
            },
    {
        match frame {
            Frame::Array(parts) => Ok(Parse { parts, pos: 0 }),
            _ => Err(ParseError::Protocol),
        }
    }

    /// The next token as text.
    pub fn next_string(&mut self) -> (r: Result<String, ParseError>)
        requires
            old(self).wf(),
        ensures
            final(self).wf(),
            final(self).tokens() == old(self).tokens(),
            old(self).pos_spec() >= old(self).tokens().len() ==> ((r matches Err(
                ParseError::EndOfStream,
            )) && final(self).pos_spec() == old(self).pos_spec()),
            old(self).pos_spec() < old(self).tokens().len() ==> {
                &&& final(self).pos_spec() == old(self).pos_spec() + 1
                &&& match r {
                    Ok(s) => token_as_string(old(self).tokens()[old(self).pos_spec()]) == Some(
                        s@,
                    ),
                    Err(ParseError::Protocol) => token_as_string(
                        old(self).tokens()[old(self).pos_spec()],
                    ) is None,
                    Err(ParseError::EndOfStream) => false,
                }
            },
    {
        proof {
            crate::frame::lemma_seq_views_props(self.parts@);
        }
        if self.pos >= self.parts.len() {
            return Err(ParseError::EndOfStream);
        }
        let i = self.pos;
        self.pos = self.pos + 1;
        match &self.parts[i] {
            Frame::Simple(s) => Ok(s.clone()),
            Frame::Bulk(b) => match bytes_to_string(clone_bytes(b)) {
                Some(s) => Ok(s),
                None => Err(ParseError::Protocol),
            },
            _ => Err(ParseError::Protocol),
        }
    }

    /// The next token as raw bytes.
    pub fn next_bytes(&mut self) -> (r: Result<Vec<u8>, ParseError>)
        requires
            old(self).wf(),
        ensures
            final(self).wf(),
            final(self).tokens() == old(self).tokens(),
            old(self).pos_spec() >= old(self).tokens().len() ==> ((r matches Err(
                ParseError::EndOfStream,
            )) && final(self).pos_spec() == old(self).pos_spec()),
            old(self).pos_spec() < old(self).tokens().len() ==> {
                &&& final(self).pos_spec() == old(self).pos_spec() + 1
                &&& match r {
                    Ok(v) => token_as_bytes(old(self).tokens()[old(self).pos_spec()]) == Some(v@),
                    Err(ParseError::Protocol) => token_as_bytes(
                        old(self).tokens()[old(self).pos_spec()],
                    ) is None,
                    Err(ParseError::EndOfStream) => false,
                }
            },
    {
        proof {
            crate::frame::lemma_seq_views_props(self.parts@);
        }
        if self.pos >= self.parts.len() {
            return Err(ParseError::EndOfStream);
        }
        let i = self.pos;
        self.pos = self.pos + 1;
        match &self.parts[i] {
            Frame::Simple(s) => Ok(slice_to_vec(s.as_str().as_bytes())),
            Frame::Bulk(b) => Ok(clone_bytes(b)),
            _ => Err(ParseError::Protocol),
        }
    }

    /// The next token as an unsigned decimal number.
    pub fn next_int(&mut self) -> (r: Result<u64, ParseError>)
        requires
            old(self).wf(),
        ensures
            final(self).wf(),
            final(self).tokens() == old(self).tokens(),
            old(self).pos_spec() >= old(self).tokens().len() ==> ((r matches Err(
                ParseError::EndOfStream,
            )) && final(self).pos_spec() == old(self).pos_spec()),
            old(self).pos_spec() < old(self).tokens().len() ==> {
                &&& final(self).pos_spec() == old(self).pos_spec() + 1
                &&& match r {
                    Ok(n) => token_as_int(old(self).tokens()[old(self).pos_spec()]) == Some(n),
                    Err(ParseError::Protocol) => token_as_int(
                        old(self).tokens()[old(self).pos_spec()],
                    ) is None,
                    Err(ParseError::EndOfStream) => false,
                }
            },
    {
        proof {
            crate::frame::lemma_seq_views_props(self.parts@);
        }
        if self.pos >= self.parts.len() {
            return Err(ParseError::EndOfStream);
        }
        let i = self.pos;
        self.pos = self.pos + 1;
        match &self.parts[i] {
            Frame::Integer(n) => Ok(*n),
            Frame::Simple(s) => match parse_u64_digits(s.as_str().as_bytes()) {
                Some(n) => Ok(n),
                None => Err(ParseError::Protocol),
            },
            Frame::Bulk(b) => match parse_u64_digits(b.as_slice()) {
                Some(n) => Ok(n),
                None => Err(ParseError::Protocol),
            },
            _ => Err(ParseError::Protocol),
        }
    }

    /// Succeeds only when every token has been consumed.
    pub fn finish(&mut self) -> (r: Result<(), ParseError>)
        requires
            old(self).wf(),
        ensures
            final(self).wf(),
            final(self).tokens() == old(self).tokens(),
            r is Ok <==> old(self).pos_spec() >= old(self).tokens().len(),
            r is Err ==> r matches Err(ParseError::Protocol),
    {
        proof {
            crate::frame::lemma_seq_views_props(self.parts@);
        }
        if self.pos >= self.parts.len() {
            Ok(())
        } else {
            self.pos = self.pos + 1;
            Err(ParseError::Protocol)
        }
    }
}

} // verus!
