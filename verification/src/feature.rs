//! The feature line decoder: one annotation line becomes a structured
//! feature record (landmark, type, start, end). The name column is not
//! derivable from the base record, so a placeholder name is used.

use vstd::prelude::*;

verus! {

use vstd::utf8::{valid_utf8, decode_utf8, encode_utf8};
use vstd::string::StringExecFns;
use crate::errors::{DecodeError, DecodeErrorModel};
use crate::text::{all_digits, uint_value, spec_fields, split_fields, parse_usize, bytes_to_string};

/// Mathematical value of a feature record.
pub struct FeatureModel {
    pub name: Seq<char>,
    pub landmark: Seq<char>,
    pub start: int,
    pub end: int,
    pub feature_type: Seq<char>,
}

/// An annotation record: a typed region on a landmark. Coordinates are
/// 1-based and inclusive; start may exceed end on the reverse strand, so
/// consumers normalize with min and max. Sub-features are reserved for
/// hierarchical decoding and stay `None` here.
#[derive(Debug, PartialEq)]
pub struct Feature {
    pub name: String,
    pub landmark: String,
    pub start: usize,
    pub end: usize,
    pub feature_type: String,
    pub subfeatures: Option<Vec<Feature>>,
}

impl View for Feature {
    type V = FeatureModel;

    open spec fn view(&self) -> FeatureModel {
        FeatureModel {
            name: self.name@,
            landmark: self.landmark@,
            start: self.start as int,
            end: self.end as int,
            feature_type: self.feature_type@,
        }
    }
}

/// The placeholder used for the feature name, which the base record does not
/// carry.
pub open spec fn placeholder_name() -> Seq<char> {
    seq!['H', 'e', 'l', 'l', 'o']
}

/// The model of a feature decode result.
pub open spec fn feature_result_model(r: Result<Feature, DecodeError>) -> Result<
    FeatureModel,
    DecodeErrorModel,
> {
    match r {
        Ok(f) => Ok(f@),
        Err(e) => Err(e@),
    }
}

/// What decoding one annotation line yields: the line must have at least the
/// five leading tab-separated columns; column 1 is the landmark, column 3 the
/// feature type, and columns 4 and 5 the unsigned decimal coordinates.
pub open spec fn spec_feature_decode(t: Seq<u8>) -> Result<FeatureModel, DecodeErrorModel> {
    let fs = spec_fields(t);
    if fs.len() < 5 {
        Err(DecodeErrorModel::MissingColumns)
    } else if !valid_utf8(fs[0]) || !valid_utf8(fs[2]) {
        Err(DecodeErrorModel::Encoding)
    } else if !(all_digits(fs[3]) && uint_value(fs[3]) <= usize::MAX) {
        Err(DecodeErrorModel::InvalidCoordinate)
    } else if !(all_digits(fs[4]) && uint_value(fs[4]) <= usize::MAX) {
        Err(DecodeErrorModel::InvalidCoordinate)
    } else {
        Ok(
            FeatureModel {
                name: placeholder_name(),
                landmark: decode_utf8(fs[0]),
                start: uint_value(fs[3]),
                end: uint_value(fs[4]),
                feature_type: decode_utf8(fs[2]),
            },
        )
    }
}

/// Decode one annotation line, given as raw bytes without its newline.
pub fn decode_feature_bytes(t: &[u8]) -> (r: Result<Feature, DecodeError>)
    ensures
        feature_result_model(r) == spec_feature_decode(t@),
        r is Ok ==> r.unwrap().subfeatures is None,
{
    let fields = split_fields(t);
    if fields.len() < 5 {
        return Err(DecodeError::MissingColumns);
    }
    let landmark = match bytes_to_string(fields[0].as_slice()) {
        None => {
            return Err(DecodeError::Encoding);
        },
        Some(s) => s,
    };
    let feature_type = match bytes_to_string(fields[2].as_slice()) {
        None => {
            return Err(DecodeError::Encoding);
        },
        Some(s) => s,
    };
    let start = match parse_usize(fields[3].as_slice()) {
        None => {
            return Err(DecodeError::InvalidCoordinate);
        },
        Some(v) => v,
    };
    let end = match parse_usize(fields[4].as_slice()) {
        None => {
            return Err(DecodeError::InvalidCoordinate);
        },
        Some(v) => v,
    };
    let name = String::from_str("Hello");
    proof {
        reveal_strlit("Hello");
        assert(name@ =~= placeholder_name());
    }
    Ok(Feature { name, landmark, start, end, feature_type, subfeatures: None })
}

impl Feature {
    /// Decode one annotation line given as text.
    pub fn from_gff3_line(line: &str) -> (r: Result<Feature, DecodeError>)
        ensures
            feature_result_model(r) == spec_feature_decode(encode_utf8(line@)),
            r is Ok ==> r.unwrap().subfeatures is None,
    {
        decode_feature_bytes(line.as_bytes())
    }
}

} // verus!
