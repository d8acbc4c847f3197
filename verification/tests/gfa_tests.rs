use genome_parsers::errors::ParseError;
use genome_parsers::gfa::Gfa;
use genome_parsers::structs::Orientation;

#[test]
fn segment_line_yields_segment_with_length() {
    let g = Gfa::parse("a.gfa", b"S\tseg1\tACGTACGT\tLN:i:8\n").unwrap();
    assert_eq!(g.segments.len(), 1);
    assert_eq!(g.segments[0].id, "seg1");
    assert_eq!(g.segments[0].length, Some(8));
    assert_eq!(g.length_of("seg1"), Some(8));
    assert_eq!(g.links.len(), 0);
    assert_eq!(g.filename, "a.gfa");
}

#[test]
fn link_line_registers_both_endpoints() {
    let g = Gfa::parse("a.gfa", b"L\ta\t+\tb\t-\t0M\n").unwrap();
    assert_eq!(g.links.len(), 1);
    let l = &g.links[0];
    assert_eq!(l.from, "a");
    assert!(matches!(l.from_orient, Orientation::Positive));
    assert_eq!(l.to, "b");
    assert!(matches!(l.to_orient, Orientation::Negative));
    assert_eq!(l.overlap.as_deref(), Some("0M"));
    assert_eq!(g.links_of("a").unwrap(), &vec![0usize]);
    assert_eq!(g.links_of("b").unwrap(), &vec![0usize]);
}

#[test]
fn wrong_declared_length_is_fatal() {
    let r = Gfa::parse("a.gfa", b"S\tseg1\tACGTACGT\tLN:i:9\n");
    assert_eq!(
        r,
        Err(ParseError::LengthMismatch { line: 1, declared: 9, actual: 8 })
    );
}

#[test]
fn undefined_segment_is_absent_without_panicking() {
    let g = Gfa::parse("a.gfa", b"L\ta\t+\tb\t-\t0M\n").unwrap();
    // both endpoints are only named by the link, never defined
    assert!(g.segment("a").is_none());
    assert!(g.segment("b").is_none());
    assert!(g.length_of("a").is_none());
    assert!(g.links_of("missing").is_none());
}

#[test]
fn links_appear_in_both_adjacency_lists() {
    let g = Gfa::parse("a.gfa", b"L\ta\t+\tb\t-\t0M\nL\tb\t+\tc\t+\t0M\n").unwrap();
    assert_eq!(g.links.len(), 2);
    assert_eq!(g.links_of("a").unwrap(), &vec![0usize]);
    assert_eq!(g.links_of("b").unwrap(), &vec![0usize, 1usize]);
    assert_eq!(g.links_of("c").unwrap(), &vec![1usize]);
    for (k, l) in g.links.iter().enumerate() {
        assert!(g.links_of(&l.from).unwrap().contains(&k));
        assert!(g.links_of(&l.to).unwrap().contains(&k));
    }
}

#[test]
fn duplicate_segment_identifier_overwrites() {
    let g = Gfa::parse("a.gfa", b"S\tx\tAC\nS\tx\tACGT\tRC:i:7\n").unwrap();
    assert_eq!(g.segments.len(), 1);
    assert_eq!(g.segments[0].read_count, Some(7));
    assert_eq!(g.length_of("x"), Some(4));
}

#[test]
fn recognized_tags_fill_their_fields() {
    let g = Gfa::parse(
        "a.gfa",
        b"S\tx\tACGT\tLN:i:4\tRC:i:2\tFC:i:3\tKC:i:5\tCS:Z:12345\tUR:Z:/tmp/x.fa\n",
    )
    .unwrap();
    let s = g.segment("x").unwrap();
    assert_eq!(s.length, Some(4));
    assert_eq!(s.read_count, Some(2));
    assert_eq!(s.fragment_count, Some(3));
    assert_eq!(s.kmer_count, Some(5));
    assert_eq!(s.checksum, 12345);
    assert_eq!(s.path.as_deref(), Some("/tmp/x.fa"));
    assert_eq!(s.reference_name, None);
    assert_eq!(s.sequence_order, None);
    assert_eq!(s.orientation, None);
}

#[test]
fn unrecognized_tags_are_ignored() {
    let g = Gfa::parse("a.gfa", b"S\tx\tACGT\tXX:i:9\tLN:Z:9\tSN:Z:chr1\n").unwrap();
    let s = g.segment("x").unwrap();
    assert_eq!(s.length, None);
    assert_eq!(s.checksum, 0);
}

#[test]
fn malformed_tag_is_fatal_with_token() {
    let r = Gfa::parse("a.gfa", b"S\tx\tAC\tjunk\n");
    assert_eq!(
        r,
        Err(ParseError::MalformedTag { line: 1, token: String::from("junk") })
    );
}

#[test]
fn zero_count_tag_is_malformed() {
    let r = Gfa::parse("a.gfa", b"S\tx\tAC\tLN:i:0\n");
    assert!(matches!(r, Err(ParseError::MalformedTag { line: 1, .. })));
}

#[test]
fn non_numeric_count_tag_is_malformed() {
    let r = Gfa::parse("a.gfa", b"S\tx\tAC\tRC:i:abc\n");
    assert!(matches!(r, Err(ParseError::MalformedTag { line: 1, .. })));
}

#[test]
fn invalid_text_in_identifier_is_an_encoding_error() {
    let r = Gfa::parse("a.gfa", b"S\t\xff\xfe\tAC\n");
    assert_eq!(r, Err(ParseError::Encoding { line: 1 }));
}

#[test]
fn short_segment_record_is_malformed() {
    let r = Gfa::parse("a.gfa", b"S\tx\n");
    assert_eq!(r, Err(ParseError::MalformedRecord { line: 1 }));
}

#[test]
fn errors_carry_the_line_number() {
    let r = Gfa::parse("a.gfa", b"S\tx\tAC\nS\ty\tAC\tLN:i:5\n");
    assert_eq!(
        r,
        Err(ParseError::LengthMismatch { line: 2, declared: 5, actual: 2 })
    );
}

#[test]
fn other_record_types_are_skipped() {
    let g = Gfa::parse("a.gfa", b"H\tVN:Z:1.0\n\nP\tp1\tx+,y-\t4M\nS\tx\tAC\n").unwrap();
    assert_eq!(g.segments.len(), 1);
    assert_eq!(g.links.len(), 0);
}

#[test]
fn short_link_records_default_their_orientations() {
    let g = Gfa::parse("a.gfa", b"L\ta\t+\tb\n").unwrap();
    let l = &g.links[0];
    assert!(matches!(l.to_orient, Orientation::Positive));
    assert_eq!(l.overlap, None);
    let g = Gfa::parse("a.gfa", b"L\ta\t?\tb\t-\n").unwrap();
    assert!(matches!(g.links[0].from_orient, Orientation::Positive));
    assert!(matches!(g.links[0].to_orient, Orientation::Negative));
}

#[test]
fn too_short_link_record_is_malformed() {
    let r = Gfa::parse("a.gfa", b"L\ta\t+\n");
    assert_eq!(r, Err(ParseError::MalformedRecord { line: 1 }));
}

#[test]
fn length_filter_drops_short_segments() {
    let mut data = Vec::new();
    data.extend_from_slice(b"S\tshort\tACG\n");
    data.extend_from_slice(b"S\tbig\t");
    data.extend_from_slice("A".repeat(600).as_bytes());
    data.extend_from_slice(b"\n");
    let g = Gfa::parse("a.gfa", &data).unwrap();
    let kept = g.segments_with_length_at_least(500);
    assert_eq!(kept.len(), 1);
    assert_eq!(kept[0].0, "big");
    assert_eq!(kept[0].1, 600);
    let all = g.segments_with_length_at_least(0);
    assert_eq!(all.len(), 2);
}
