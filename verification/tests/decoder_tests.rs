use genome_parsers::errors::DecodeError;
use genome_parsers::feature::Feature;
use genome_parsers::structs::Orientation;
use genome_parsers::tags::{decode_tag, TagValue};
use genome_parsers::text::{parse_u64, parse_usize, split_fields, trim};

#[test]
fn recognized_tags_decode_to_typed_values() {
    assert_eq!(decode_tag(b"LN:i:8"), Ok(TagValue::Length(8)));
    assert_eq!(decode_tag(b"RC:i:3"), Ok(TagValue::ReadCount(3)));
    assert_eq!(decode_tag(b"FC:i:41"), Ok(TagValue::FragmentCount(41)));
    assert_eq!(decode_tag(b"KC:i:5"), Ok(TagValue::KmerCount(5)));
    assert_eq!(decode_tag(b"CS:Z:18446744073709551615"), Ok(TagValue::Checksum(u64::MAX)));
    assert_eq!(decode_tag(b"CS:Z:0"), Ok(TagValue::Checksum(0)));
    assert_eq!(
        decode_tag(b"UR:Z:/data/ref.fa"),
        Ok(TagValue::SourcePath(String::from("/data/ref.fa")))
    );
}

#[test]
fn unrecognized_keys_are_ignored() {
    assert_eq!(decode_tag(b"XX:i:5"), Ok(TagValue::Unrecognized));
    assert_eq!(decode_tag(b"LN:Z:8"), Ok(TagValue::Unrecognized));
    assert_eq!(decode_tag(b"SN:Z:chr1"), Ok(TagValue::Unrecognized));
    assert_eq!(decode_tag(b"aa:A:x"), Ok(TagValue::Unrecognized));
    assert_eq!(decode_tag(b"z9:B:1,2"), Ok(TagValue::Unrecognized));
}

#[test]
fn tokens_outside_the_grammar_are_malformed() {
    assert_eq!(decode_tag(b"junk"), Err(DecodeError::MalformedTag(String::from("junk"))));
    assert!(matches!(decode_tag(b""), Err(DecodeError::MalformedTag(_))));
    assert!(matches!(decode_tag(b"A:i:5"), Err(DecodeError::MalformedTag(_))));
    assert!(matches!(decode_tag(b"1N:i:5"), Err(DecodeError::MalformedTag(_))));
    assert!(matches!(decode_tag(b"LN:q:5"), Err(DecodeError::MalformedTag(_))));
    assert!(matches!(decode_tag(b"LN-i-5"), Err(DecodeError::MalformedTag(_))));
}

#[test]
fn unusable_values_of_recognized_tags_are_malformed() {
    assert!(matches!(decode_tag(b"LN:i:0"), Err(DecodeError::MalformedTag(_))));
    assert!(matches!(decode_tag(b"LN:i:abc"), Err(DecodeError::MalformedTag(_))));
    assert!(matches!(decode_tag(b"LN:i:"), Err(DecodeError::MalformedTag(_))));
    assert!(matches!(decode_tag(b"KC:i:-4"), Err(DecodeError::MalformedTag(_))));
    assert!(matches!(
        decode_tag(b"CS:Z:18446744073709551616"),
        Err(DecodeError::MalformedTag(_))
    ));
}

#[test]
fn invalid_text_in_a_tag_is_an_encoding_error() {
    assert_eq!(decode_tag(b"LN:i:\xff\xfe"), Err(DecodeError::Encoding));
}

#[test]
fn feature_line_decodes_its_columns() {
    let f = Feature::from_gff3_line("chr1\tsrc\tgene\t100\t200\t.\t+\t.\tID=g1").unwrap();
    assert_eq!(f.landmark, "chr1");
    assert_eq!(f.feature_type, "gene");
    assert_eq!(f.start, 100);
    assert_eq!(f.end, 200);
    assert_eq!(f.name, "Hello");
    assert!(f.subfeatures.is_none());
}

#[test]
fn feature_line_needs_five_columns() {
    assert_eq!(
        Feature::from_gff3_line("chr1\tsrc\tgene\t100"),
        Err(DecodeError::MissingColumns)
    );
    assert_eq!(Feature::from_gff3_line(""), Err(DecodeError::MissingColumns));
}

#[test]
fn feature_line_rejects_bad_coordinates() {
    assert_eq!(
        Feature::from_gff3_line("chr1\tsrc\tgene\tabc\t200"),
        Err(DecodeError::InvalidCoordinate)
    );
    assert_eq!(
        Feature::from_gff3_line("chr1\tsrc\tgene\t100\t2x0"),
        Err(DecodeError::InvalidCoordinate)
    );
}

#[test]
fn orientation_tokens_default_to_forward() {
    assert_eq!(Orientation::parse_token(b"+"), Orientation::Positive);
    assert_eq!(Orientation::parse_token(b"-"), Orientation::Negative);
    assert_eq!(Orientation::parse_token(b"?"), Orientation::Positive);
    assert_eq!(Orientation::parse_token(b""), Orientation::Positive);
    assert_eq!(Orientation::parse_token(b"--"), Orientation::Positive);
    assert_eq!(Orientation::default(), Orientation::Positive);
}

#[test]
fn unsigned_decimal_parsing_is_exact() {
    assert_eq!(parse_u64(b"0"), Some(0));
    assert_eq!(parse_u64(b"18446744073709551615"), Some(u64::MAX));
    assert_eq!(parse_u64(b"18446744073709551616"), None);
    assert_eq!(parse_u64(b""), None);
    assert_eq!(parse_u64(b"12a"), None);
    assert_eq!(parse_u64(b"+1"), None);
    assert_eq!(parse_usize(b"007"), Some(7));
}

#[test]
fn splitting_and_trimming_follow_the_format() {
    let fields = split_fields(b"a\tbb\t\tc");
    let views: Vec<&[u8]> = fields.iter().map(|f| f.as_slice()).collect();
    assert_eq!(views, vec![&b"a"[..], &b"bb"[..], &b""[..], &b"c"[..]]);
    assert_eq!(split_fields(b"").len(), 1);
    assert_eq!(trim(b"  chr1\tx \r\n").as_slice(), b"chr1\tx");
    assert_eq!(trim(b" \t \n").as_slice(), b"");
}
