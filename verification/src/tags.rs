//! The tag field decoder: one `KEY:TYPE:VALUE` token of a segment record
//! becomes a typed value. Recognized key/type pairs are `LN:i` (length),
//! `RC:i` (read count), `FC:i` (fragment count), `KC:i` (k-mer count),
//! `CS:Z` (checksum, an unsigned 64-bit number) and `UR:Z` (source path);
//! every other key that fits the grammar is ignored.

use vstd::prelude::*;

verus! {

use vstd::utf8::{valid_utf8, decode_utf8};
use crate::errors::{DecodeError, DecodeErrorModel};
use crate::text::{all_digits, uint_value};

/// An ASCII letter.
pub open spec fn is_alpha(b: u8) -> bool {
    (65 <= b <= 90) || (97 <= b <= 122)
}

/// An ASCII letter or digit.
pub open spec fn is_alnum(b: u8) -> bool {
    is_alpha(b) || (48 <= b <= 57)
}

/// The tag grammar: a two-character alphanumeric key starting with a letter,
/// a colon, one of the type codes `A i f Z H B`, and a colon; the value is
/// whatever follows.
pub open spec fn tag_grammar_ok(t: Seq<u8>) -> bool {
    &&& t.len() >= 5
    &&& is_alpha(t[0])
    &&& is_alnum(t[1])
    &&& t[2] == 58
    &&& (t[3] == 65 || t[3] == 105 || t[3] == 102 || t[3] == 90 || t[3] == 72 || t[3] == 66)
    &&& t[4] == 58
}

/// True when the token's key bytes and type code are the given ones.
pub open spec fn has_key(t: Seq<u8>, b0: u8, b1: u8, code: u8) -> bool {
    t[0] == b0 && t[1] == b1 && t[3] == code
}

/// A decoded tag value.
#[derive(Clone, Debug, PartialEq)]
pub enum TagValue {
    /// `LN:i`: the declared segment length, a positive integer.
    Length(usize),
    /// `RC:i`: read count, a positive integer.
    ReadCount(usize),
    /// `FC:i`: fragment count, a positive integer.
    FragmentCount(usize),
    /// `KC:i`: k-mer count, a positive integer.
    KmerCount(usize),
    /// `CS:Z`: checksum of the sequence, an unsigned 64-bit number.
    Checksum(u64),
    /// `UR:Z`: URI or path of the sequence data.
    SourcePath(String),
    /// A key the decoder does not recognize; skipped.
    Unrecognized,
}

/// Mathematical value of a `TagValue`.
pub enum TagModel {
    Length(int),
    ReadCount(int),
    FragmentCount(int),
    KmerCount(int),
    Checksum(int),
    SourcePath(Seq<char>),
    Unrecognized,
}

impl View for TagValue {
    type V = TagModel;

    open spec fn view(&self) -> TagModel {
        match self {
            TagValue::Length(v) => TagModel::Length(*v as int),
            TagValue::ReadCount(v) => TagModel::ReadCount(*v as int),
            TagValue::FragmentCount(v) => TagModel::FragmentCount(*v as int),
            TagValue::KmerCount(v) => TagModel::KmerCount(*v as int),
            TagValue::Checksum(v) => TagModel::Checksum(*v as int),
            TagValue::SourcePath(s) => TagModel::SourcePath(s@),
            TagValue::Unrecognized => TagModel::Unrecognized,
        }
    }
}

/// The model of a decode result.
pub open spec fn tag_result_model(r: Result<TagValue, DecodeError>) -> Result<
    TagModel,
    DecodeErrorModel,
> {
    match r {
        Ok(v) => Ok(v@),
        Err(e) => Err(e@),
    }
}

/// True when the value bytes denote a positive integer that fits a usize.
pub open spec fn fits_positive(val: Seq<u8>) -> bool {
    all_digits(val) && 0 < uint_value(val) <= usize::MAX
}

/// What decoding a tag token yields. The token must be text; it must fit the
/// tag grammar; a recognized count key needs a positive in-range decimal
/// value, and the checksum key an unsigned 64-bit decimal value.
pub open spec fn spec_decode_tag(t: Seq<u8>) -> Result<TagModel, DecodeErrorModel> {
    if !valid_utf8(t) {
        Err(DecodeErrorModel::Encoding)
    } else if !tag_grammar_ok(t) {
        Err(DecodeErrorModel::MalformedTag(decode_utf8(t)))
    } else {
        let val = t.subrange(5, t.len() as int);
        if has_key(t, 76, 78, 105) {
            // LN:i
            if fits_positive(val) {
                Ok(TagModel::Length(uint_value(val)))
            } else {
                Err(DecodeErrorModel::MalformedTag(decode_utf8(t)))
            }
        } else if has_key(t, 82, 67, 105) {
            // RC:i
            if fits_positive(val) {
                Ok(TagModel::ReadCount(uint_value(val)))
            } else {
                Err(DecodeErrorModel::MalformedTag(decode_utf8(t)))
            }
        } else if has_key(t, 70, 67, 105) {
            // FC:i
            if fits_positive(val) {
                Ok(TagModel::FragmentCount(uint_value(val)))
            } else {
                Err(DecodeErrorModel::MalformedTag(decode_utf8(t)))
            }
        } else if has_key(t, 75, 67, 105) {
            // KC:i
            if fits_positive(val) {
                Ok(TagModel::KmerCount(uint_value(val)))
            } else {
                Err(DecodeErrorModel::MalformedTag(decode_utf8(t)))
            }
        } else if has_key(t, 67, 83, 90) {
            // CS:Z
            if all_digits(val) && uint_value(val) <= u64::MAX {
                Ok(TagModel::Checksum(uint_value(val)))
            } else {
                Err(DecodeErrorModel::MalformedTag(decode_utf8(t)))
            }
        } else if has_key(t, 85, 82, 90) {
            // UR:Z
            if valid_utf8(val) {
                Ok(TagModel::SourcePath(decode_utf8(val)))
            } else {
                Err(DecodeErrorModel::Encoding)
            }
        } else {
            Ok(TagModel::Unrecognized)
        }
    }
}

fn is_alpha_exec(b: u8) -> (r: bool)
    ensures
        r == is_alpha(b),
{
    (65 <= b && b <= 90) || (97 <= b && b <= 122)
}

fn is_alnum_exec(b: u8) -> (r: bool)
    ensures
        r == is_alnum(b),
{
    is_alpha_exec(b) || (48 <= b && b <= 57)
}

/// Decode one `KEY:TYPE:VALUE` tag token.
pub fn decode_tag(t: &[u8]) -> (r: Result<TagValue, DecodeError>)
    ensures
        tag_result_model(r) == spec_decode_tag(t@),
{
    let token = match crate::text::bytes_to_string(t) {
        None => {
            return Err(DecodeError::Encoding);
        },
        Some(s) => s,
    };
    let grammar_ok = t.len() >= 5 && is_alpha_exec(t[0]) && is_alnum_exec(t[1]) && t[2] == 58 && (
    t[3] == 65 || t[3] == 105 || t[3] == 102 || t[3] == 90 || t[3] == 72 || t[3] == 66) && t[4]
        == 58;
    if !grammar_ok {
        return Err(DecodeError::MalformedTag(token));
    }
    let val = vstd::slice::slice_subrange(t, 5, t.len());
    if t[0] == 76 && t[1] == 78 && t[3] == 105 {
        match crate::text::parse_usize(val) {
            Some(v) if v > 0 => Ok(TagValue::Length(v)),
            _ => Err(DecodeError::MalformedTag(token)),
        }
    } else if t[0] == 82 && t[1] == 67 && t[3] == 105 {
        match crate::text::parse_usize(val) {
            Some(v) if v > 0 => Ok(TagValue::ReadCount(v)),
            _ => Err(DecodeError::MalformedTag(token)),
        }
    } else if t[0] == 70 && t[1] == 67 && t[3] == 105 {
        match crate::text::parse_usize(val) {
            Some(v) if v > 0 => Ok(TagValue::FragmentCount(v)),
            _ => Err(DecodeError::MalformedTag(token)),
        }
    } else if t[0] == 75 && t[1] == 67 && t[3] == 105 {
        match crate::text::parse_usize(val) {
            Some(v) if v > 0 => Ok(TagValue::KmerCount(v)),
            _ => Err(DecodeError::MalformedTag(token)),
        }
    } else if t[0] == 67 && t[1] == 83 && t[3] == 90 {
        match crate::text::parse_u64(val) {
            Some(v) => Ok(TagValue::Checksum(v)),
            None => Err(DecodeError::MalformedTag(token)),
        }
    } else if t[0] == 85 && t[1] == 82 && t[3] == 90 {
        match crate::text::bytes_to_string(val) {
            Some(s) => Ok(TagValue::SourcePath(s)),
            None => Err(DecodeError::Encoding),
        }
    } else {
        Ok(TagValue::Unrecognized)
    }
}

} // verus!
