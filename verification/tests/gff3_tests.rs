use genome_parsers::errors::ParseError;
use genome_parsers::gff3::Gff3;

fn three_chr1_then_chr2() -> Vec<u8> {
    let mut data = Vec::new();
    data.extend_from_slice(b"chr1\tsrc\tgene\t100\t200\t.\n");
    data.extend_from_slice(b"chr1\tsrc\tgene\t150\t400\t.\n");
    data.extend_from_slice(b"chr1\tsrc\tgene\t5\t50\t.\n");
    data.extend_from_slice(b"chr2\tsrc\tgene\t1\t10\t.\n");
    data
}

#[test]
fn landmark_statistics_exclude_the_opening_line() {
    let data = three_chr1_then_chr2();
    let idx = Gff3::parse("t.gff3", &data).unwrap();
    assert_eq!(idx.landmarks.len(), 2);
    // longest block first
    let chr1 = &idx.landmarks[0];
    assert_eq!(chr1.name, "chr1");
    assert_eq!(chr1.offset, 0);
    assert_eq!(chr1.length, 69);
    assert_eq!(chr1.max_coord, 400);
    assert_eq!(chr1.feature_count, 2);
    let chr2 = &idx.landmarks[1];
    assert_eq!(chr2.name, "chr2");
    assert_eq!(chr2.offset, 69);
    assert_eq!(chr2.length, 21);
    assert_eq!(chr2.max_coord, 0);
    assert_eq!(chr2.feature_count, 0);
}

#[test]
fn region_query_returns_exactly_the_landmark_block() {
    let data = three_chr1_then_chr2();
    let idx = Gff3::parse("t.gff3", &data).unwrap();
    let (feats, maxc) = idx.parse_region(&data, "chr1").unwrap();
    assert_eq!(maxc, 400);
    assert_eq!(feats.len(), 3);
    for f in &feats {
        assert_eq!(f.landmark, "chr1");
        assert_eq!(f.name, "Hello");
        assert_eq!(f.feature_type, "gene");
        assert!(f.subfeatures.is_none());
    }
    assert_eq!((feats[0].start, feats[0].end), (100, 200));
    assert_eq!((feats[1].start, feats[1].end), (150, 400));
    assert_eq!((feats[2].start, feats[2].end), (5, 50));
    let (feats2, maxc2) = idx.parse_region(&data, "chr2").unwrap();
    assert_eq!(maxc2, 0);
    assert_eq!(feats2.len(), 1);
    assert_eq!(feats2[0].landmark, "chr2");
}

#[test]
fn absent_landmark_is_not_found() {
    let data = three_chr1_then_chr2();
    let idx = Gff3::parse("t.gff3", &data).unwrap();
    let r = idx.parse_region(&data, "chrX");
    assert_eq!(
        r,
        Err(ParseError::LandmarkNotFound { landmark: String::from("chrX") })
    );
}

#[test]
fn blocks_partition_the_file() {
    let mut data = Vec::new();
    data.extend_from_slice(b"# header comment\n");
    data.extend_from_slice(b"chrA\ts\tgene\t1\t9\t.\n");
    data.extend_from_slice(b"chrA\ts\tgene\t2\t8\t.\n");
    data.extend_from_slice(b"chrB\ts\tgene\t3\t7\t.\n");
    data.extend_from_slice(b"# stray comment inside\n");
    data.extend_from_slice(b"chrB\ts\tgene\t4\t6\t.\n");
    data.extend_from_slice(b"chrC\ts\tgene\t5\t5\t.\n");
    let idx = Gff3::parse("t.gff3", &data).unwrap();
    let sum: usize = idx.landmarks.iter().map(|e| e.length).sum();
    let first = idx.landmarks.iter().map(|e| e.offset).min().unwrap();
    assert_eq!(sum, data.len() - first);
}

#[test]
fn index_build_is_idempotent() {
    let data = three_chr1_then_chr2();
    let a = Gff3::parse("t.gff3", &data).unwrap();
    let b = Gff3::parse("t.gff3", &data).unwrap();
    assert_eq!(a.landmarks, b.landmarks);
}

#[test]
fn entries_come_longest_first() {
    let mut data = Vec::new();
    data.extend_from_slice(b"s\ta\tg\t1\t2\t.\n");
    data.extend_from_slice(b"mid\ta\tgene\t1\t2\tlonger line\n");
    data.extend_from_slice(b"verylonglandmarkname\ta\tgene\t1\t2\tan even longer line here\n");
    let idx = Gff3::parse("t.gff3", &data).unwrap();
    assert_eq!(idx.landmarks.len(), 3);
    assert!(idx.landmarks[0].length >= idx.landmarks[1].length);
    assert!(idx.landmarks[1].length >= idx.landmarks[2].length);
}

#[test]
fn malformed_coordinates_are_tolerated() {
    let mut data = Vec::new();
    data.extend_from_slice(b"chr1\ts\tgene\t10\t20\t.\n");
    data.extend_from_slice(b"chr1\ts\tgene\tabc\t30\t.\n"); // bad start: not counted
    data.extend_from_slice(b"chr1\ts\tgene\t15\t25\t.\n");
    data.extend_from_slice(b"chr1\tshort\n"); // missing columns: not counted
    let idx = Gff3::parse("t.gff3", &data).unwrap();
    assert_eq!(idx.landmarks.len(), 1);
    assert_eq!(idx.landmarks[0].feature_count, 1);
    assert_eq!(idx.landmarks[0].max_coord, 25);
}

#[test]
fn undecodable_lines_are_skipped() {
    let mut data = Vec::new();
    data.extend_from_slice(b"chr1\ts\tgene\t10\t20\t.\n");
    data.extend_from_slice(b"\xff\xfe\tbroken\tgene\t1\t2\t.\n");
    data.extend_from_slice(b"chr1\ts\tgene\t15\t99\t.\n");
    let idx = Gff3::parse("t.gff3", &data).unwrap();
    assert_eq!(idx.landmarks.len(), 1);
    assert_eq!(idx.landmarks[0].feature_count, 1);
    assert_eq!(idx.landmarks[0].max_coord, 99);
}

#[test]
fn empty_input_yields_no_landmarks() {
    let idx = Gff3::parse("t.gff3", b"").unwrap();
    assert!(idx.landmarks.is_empty());
    let idx = Gff3::parse("t.gff3", b"# only a comment\n\n").unwrap();
    assert!(idx.landmarks.is_empty());
}

#[test]
fn test_parse_test_gff3() {
    // the indexer over a small annotation body held in memory
    let data = three_chr1_then_chr2();
    let j = Gff3::parse("test.gff3", &data);
    let idx = j.unwrap();
    assert_eq!(idx.filename, "test.gff3");
    assert_eq!(idx.landmarks.len(), 2);
}

#[test]
fn test_parse_large_gff3() {
    // the indexer over a larger, many-landmark body held in memory
    let mut data = Vec::new();
    for chrom in 0..50 {
        for line in 0..40 {
            let start = line * 100 + 1;
            let end = start + 99;
            data.extend_from_slice(
                format!("contig{}\tsrc\tgene\t{}\t{}\t.\n", chrom, start, end).as_bytes(),
            );
        }
    }
    let j = Gff3::parse("large.gff3", &data);
    let idx = j.unwrap();
    assert_eq!(idx.landmarks.len(), 50);
    for e in &idx.landmarks {
        assert_eq!(e.feature_count, 39);
        assert_eq!(e.max_coord, 4000);
    }
    let sum: usize = idx.landmarks.iter().map(|e| e.length).sum();
    assert_eq!(sum, data.len());
}
