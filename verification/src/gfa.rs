//! The assembly graph parser: a single pass over tab-separated records
//! builds the segment table, the implied-length table, the flat link list,
//! and a links-by-endpoint index in which every link is reachable from both
//! of its endpoints. Links are stored once, in the flat list, and the
//! adjacency index holds stable integer handles into it.

use vstd::prelude::*;

verus! {

use vstd::utf8::{valid_utf8, decode_utf8};
use crate::errors::{ParseError, ParseErrorModel, spec_line_error, line_error};
use crate::structs::{Segment, SegmentModel, Link, LinkModel, Orientation, spec_orientation,
    empty_segment_model};
use crate::tags::{TagModel, TagValue, spec_decode_tag, decode_tag};
use crate::text::{spec_fields, split_fields, line_content, num_lines,
    positions_of, byte_positions, count_lines, line_bounds, bytes_to_string, lemma_map_pointwise,
    lemma_positions_of};

/// Mathematical value of a parsed assembly graph.
pub struct GfaModel {
    pub filename: Seq<char>,
    pub segments: Seq<SegmentModel>,
    pub lengths: Seq<(Seq<char>, int)>,
    pub links: Seq<LinkModel>,
    pub atlas: Seq<(Seq<char>, Seq<int>)>,
}

/// A parsed assembly graph: the segment table (unique identifiers, last
/// record wins), the byte lengths of the inline sequences, all links in file
/// order, and the links-by-endpoint index holding positions into `links`.
#[derive(Clone, Debug, PartialEq)]
pub struct Gfa {
    pub filename: String,
    pub segments: Vec<Segment>,
    pub lengths: Vec<(String, usize)>,
    pub links: Vec<Link>,
    pub links_atlas: Vec<(String, Vec<usize>)>,
}

/// Model of a segment table.
pub open spec fn seg_models(s: Seq<Segment>) -> Seq<SegmentModel> {
    s.map_values(|x: Segment| x@)
}

/// Model of a link list.
pub open spec fn link_models(s: Seq<Link>) -> Seq<LinkModel> {
    s.map_values(|x: Link| x@)
}

/// Model of the implied-length table.
pub open spec fn length_models(s: Seq<(String, usize)>) -> Seq<(Seq<char>, int)> {
    s.map_values(|p: (String, usize)| (p.0@, p.1 as int))
}

/// Model of the links-by-endpoint index.
pub open spec fn atlas_models(s: Seq<(String, Vec<usize>)>) -> Seq<(Seq<char>, Seq<int>)> {
    s.map_values(|p: (String, Vec<usize>)| (p.0@, p.1@.map_values(|x: usize| x as int)))
}

impl View for Gfa {
    type V = GfaModel;

    open spec fn view(&self) -> GfaModel {
        GfaModel {
            filename: self.filename@,
            segments: seg_models(self.segments@),
            lengths: length_models(self.lengths@),
            links: link_models(self.links@),
            atlas: atlas_models(self.links_atlas@),
        }
    }
}

/// Index of the first segment with the given identifier, or -1.
pub open spec fn seg_find(segs: Seq<SegmentModel>, id: Seq<char>) -> int
    decreases segs.len(),
{
    if segs.len() == 0 {
        -1
    } else if segs[0].id == id {
        0
    } else {
        let r = seg_find(segs.drop_first(), id);
        if r < 0 {
            -1
        } else {
            r + 1
        }
    }
}

/// `seg_find` returns -1 exactly when no segment matches, and otherwise the
/// first matching index.
pub proof fn lemma_seg_find(segs: Seq<SegmentModel>, id: Seq<char>)
    ensures
        seg_find(segs, id) == -1 ==> forall|i: int|
            0 <= i < segs.len() ==> #[trigger] segs[i].id != id,
        seg_find(segs, id) != -1 ==> 0 <= seg_find(segs, id) < segs.len() && segs[seg_find(
            segs,
            id,
        )].id == id && forall|i: int| 0 <= i < seg_find(segs, id) ==> #[trigger] segs[i].id != id,
    decreases segs.len(),
{
    if segs.len() > 0 && segs[0].id != id {
        let rest = segs.drop_first();
        lemma_seg_find(rest, id);
        let r = seg_find(rest, id);
        if r < 0 {
            assert forall|i: int| 0 <= i < segs.len() implies #[trigger] segs[i].id != id by {
                if i >= 1 {
                    assert(segs[i] == rest[i - 1]);
                }
            }
        } else {
            assert(segs[r + 1] == rest[r]);
            assert forall|i: int| 0 <= i < r + 1 implies #[trigger] segs[i].id != id by {
                if i >= 1 {
                    assert(segs[i] == rest[i - 1]);
                }
            }
        }
    }
}

/// Index of the first entry with the given key, or -1.
pub open spec fn assoc_find<V>(m: Seq<(Seq<char>, V)>, key: Seq<char>) -> int
    decreases m.len(),
{
    if m.len() == 0 {
        -1
    } else if m[0].0 == key {
        0
    } else {
        let r = assoc_find(m.drop_first(), key);
        if r < 0 {
            -1
        } else {
            r + 1
        }
    }
}

/// `assoc_find` returns -1 exactly when no key matches, and otherwise the
/// first matching index.
pub proof fn lemma_assoc_find<V>(m: Seq<(Seq<char>, V)>, key: Seq<char>)
    ensures
        assoc_find(m, key) == -1 ==> forall|i: int|
            0 <= i < m.len() ==> (#[trigger] m[i]).0 != key,
        assoc_find(m, key) != -1 ==> 0 <= assoc_find(m, key) < m.len() && m[assoc_find(
            m,
            key,
        )].0 == key && forall|i: int| 0 <= i < assoc_find(m, key) ==> (#[trigger] m[i]).0 != key,
    decreases m.len(),
{
    if m.len() > 0 && m[0].0 != key {
        let rest = m.drop_first();
        lemma_assoc_find(rest, key);
        let r = assoc_find(rest, key);
        if r < 0 {
            assert forall|i: int| 0 <= i < m.len() implies (#[trigger] m[i]).0 != key by {
                if i >= 1 {
                    assert(m[i] == rest[i - 1]);
                }
            }
        } else {
            assert(m[r + 1] == rest[r]);
            assert forall|i: int| 0 <= i < r + 1 implies (#[trigger] m[i]).0 != key by {
                if i >= 1 {
                    assert(m[i] == rest[i - 1]);
                }
            }
        }
    }
}

/// Insert or replace a segment, keyed by its identifier; the first matching
/// row is replaced, and a new identifier is appended.
pub open spec fn seg_upsert(segs: Seq<SegmentModel>, s: SegmentModel) -> Seq<SegmentModel> {
    let r = seg_find(segs, s.id);
    if r < 0 {
        segs.push(s)
    } else {
        segs.update(r, s)
    }
}

/// Insert or replace an implied-length row.
pub open spec fn length_set(m: Seq<(Seq<char>, int)>, key: Seq<char>, v: int) -> Seq<
    (Seq<char>, int),
> {
    let r = assoc_find(m, key);
    if r < 0 {
        m.push((key, v))
    } else {
        m.update(r, (key, v))
    }
}

/// Register a link handle under an endpoint name, appending to the name's
/// list or opening a fresh single-element list.
pub open spec fn atlas_add(m: Seq<(Seq<char>, Seq<int>)>, key: Seq<char>, idx: int) -> Seq<
    (Seq<char>, Seq<int>),
> {
    let r = assoc_find(m, key);
    if r < 0 {
        m.push((key, seq![idx]))
    } else {
        m.update(r, (key, m[r].1.push(idx)))
    }
}

/// Insert or replace a segment in the segment table.
fn seg_table_upsert(segs: &mut Vec<Segment>, seg: Segment)
    ensures
        seg_models(final(segs)@) == seg_upsert(seg_models(old(segs)@), seg@),
{
    let n = segs.len();
    let mut j: usize = 0;
    while j < n
        invariant
            0 <= j <= n,
            n == segs@.len(),
            segs@ == old(segs)@,
            forall|k: int| 0 <= k < j ==> #[trigger] seg_models(segs@)[k].id != seg@.id,
        decreases n - j,
    {
        if segs[j].id == seg.id {
            proof {
                assert(seg_models(segs@)[j as int].id == seg@.id);
                lemma_seg_find(seg_models(segs@), seg@.id);
                assert(seg_find(seg_models(segs@), seg@.id) == j);
            }
            let ghost old_segs = segs@;
            segs[j] = seg;
            proof {
                assert(seg_models(segs@) =~= seg_upsert(seg_models(old_segs), seg@));
            }
            return ;
        }
        proof {
            assert(seg_models(segs@)[j as int].id == segs@[j as int]@.id);
        }
        j += 1;
    }
    proof {
        assert(seg_find(seg_models(segs@), seg@.id) == -1) by {
            lemma_seg_find(seg_models(segs@), seg@.id);
            if seg_find(seg_models(segs@), seg@.id) != -1 {
                assert(seg_models(segs@)[seg_find(seg_models(segs@), seg@.id)].id == seg@.id);
            }
        }
    }
    let ghost old_segs = segs@;
    segs.push(seg);
    proof {
        assert(seg_models(segs@) =~= seg_upsert(seg_models(old_segs), seg@));
    }
}

/// Insert or replace an implied-length row in the length table.
fn length_table_set(lens: &mut Vec<(String, usize)>, key: String, v: usize)
    ensures
        length_models(final(lens)@) == length_set(length_models(old(lens)@), key@, v as int),
{
    let n = lens.len();
    let mut j: usize = 0;
    while j < n
        invariant
            0 <= j <= n,
            n == lens@.len(),
            lens@ == old(lens)@,
            forall|k: int| 0 <= k < j ==> (#[trigger] length_models(lens@)[k]).0 != key@,
        decreases n - j,
    {
        if lens[j].0 == key {
            proof {
                assert((length_models(lens@)[j as int]).0 == key@);
                lemma_assoc_find(length_models(lens@), key@);
                assert(assoc_find(length_models(lens@), key@) == j);
            }
            let ghost old_lens = lens@;
            lens[j] = (key, v);
            proof {
                assert(length_models(lens@) =~= length_set(length_models(old_lens), key@, v as int));
            }
            return ;
        }
        proof {
            assert((length_models(lens@)[j as int]).0 == lens@[j as int].0@);
        }
        j += 1;
    }
    proof {
        lemma_assoc_find(length_models(lens@), key@);
        if assoc_find(length_models(lens@), key@) != -1 {
            assert((length_models(lens@)[assoc_find(length_models(lens@), key@)]).0 == key@);
        }
    }
    let ghost old_lens = lens@;
    lens.push((key, v));
    proof {
        assert(length_models(lens@) =~= length_set(length_models(old_lens), key@, v as int));
    }
}

/// Register a link handle under an endpoint name in the adjacency index.
fn atlas_table_add(atlas: &mut Vec<(String, Vec<usize>)>, key: String, idx: usize)
    ensures
        atlas_models(final(atlas)@) == atlas_add(atlas_models(old(atlas)@), key@, idx as int),
{
    let n = atlas.len();
    let mut j: usize = 0;
    while j < n
        invariant
            0 <= j <= n,
            n == atlas@.len(),
            atlas@ == old(atlas)@,
            forall|k: int| 0 <= k < j ==> (#[trigger] atlas_models(atlas@)[k]).0 != key@,
        decreases n - j,
    {
        if atlas[j].0 == key {
            proof {
                assert((atlas_models(atlas@)[j as int]).0 == key@);
                lemma_assoc_find(atlas_models(atlas@), key@);
                assert(assoc_find(atlas_models(atlas@), key@) == j);
            }
            let ghost old_atlas = atlas@;
            let mut e = atlas.remove(j);
            e.1.push(idx);
            atlas.insert(j, e);
            proof {
                assert(atlas@ =~= old_atlas.update(j as int, (old_atlas[j as int].0, e.1)));
                assert(e.1@.map_values(|x: usize| x as int) =~= old_atlas[j as int].1@.map_values(
                    |x: usize| x as int,
                ).push(idx as int));
                assert(atlas_models(atlas@) =~= atlas_add(atlas_models(old_atlas), key@, idx as int));
            }
            return ;
        }
        proof {
            assert((atlas_models(atlas@)[j as int]).0 == atlas@[j as int].0@);
        }
        j += 1;
    }
    proof {
        lemma_assoc_find(atlas_models(atlas@), key@);
        if assoc_find(atlas_models(atlas@), key@) != -1 {
            assert((atlas_models(atlas@)[assoc_find(atlas_models(atlas@), key@)]).0 == key@);
        }
    }
    let ghost old_atlas = atlas@;
    let mut fresh: Vec<usize> = Vec::new();
    fresh.push(idx);
    atlas.push((key, fresh));
    proof {
        assert(fresh@.map_values(|x: usize| x as int) =~= seq![idx as int]);
        assert(atlas_models(atlas@) =~= atlas_add(atlas_models(old_atlas), key@, idx as int));
    }
}

/// A fresh segment model carrying only its identifier.
pub open spec fn seg_with_id(id: Seq<char>) -> SegmentModel {
    SegmentModel { id, ..empty_segment_model() }
}

/// Folding the tag tokens of a segment record, from field `j` on, into the
/// segment. A declared length that disagrees with the implied length is a
/// fatal mismatch; a tag error aborts the record.
pub open spec fn spec_tags_fold(
    seg: SegmentModel,
    fs: Seq<Seq<u8>>,
    j: int,
    implied: int,
    lineno: int,
) -> Result<(SegmentModel, int), ParseErrorModel>
    decreases fs.len() - j,
{
    if j < 0 || j >= fs.len() {
        Ok((seg, implied))
    } else {
        match spec_decode_tag(fs[j]) {
            Err(e) => Err(spec_line_error(e, lineno)),
            Ok(tag) => match tag {
                TagModel::Length(v) => if v != implied {
                    Err(
                        ParseErrorModel::LengthMismatch {
                            line: lineno,
                            declared: v,
                            actual: implied,
                        },
                    )
                } else {
                    spec_tags_fold(
                        SegmentModel { length: Some(v), ..seg },
                        fs,
                        j + 1,
                        implied,
                        lineno,
                    )
                },
                TagModel::ReadCount(v) => spec_tags_fold(
                    SegmentModel { read_count: Some(v), ..seg },
                    fs,
                    j + 1,
                    implied,
                    lineno,
                ),
                TagModel::FragmentCount(v) => spec_tags_fold(
                    SegmentModel { fragment_count: Some(v), ..seg },
                    fs,
                    j + 1,
                    implied,
                    lineno,
                ),
                TagModel::KmerCount(v) => spec_tags_fold(
                    SegmentModel { kmer_count: Some(v), ..seg },
                    fs,
                    j + 1,
                    implied,
                    lineno,
                ),
                TagModel::Checksum(v) => spec_tags_fold(
                    SegmentModel { checksum: v, ..seg },
                    fs,
                    j + 1,
                    implied,
                    lineno,
                ),
                TagModel::SourcePath(s) => spec_tags_fold(
                    SegmentModel { path: Some(s), ..seg },
                    fs,
                    j + 1,
                    implied,
                    lineno,
                ),
                TagModel::Unrecognized => spec_tags_fold(seg, fs, j + 1, implied, lineno),
            },
        }
    }
}

/// What decoding a segment record yields: the identifier from field 1, the
/// implied length as the byte length of the inline sequence in field 2, and
/// the tags of the remaining fields.
pub open spec fn spec_segment_line(line: Seq<u8>, lineno: int) -> Result<
    (SegmentModel, int),
    ParseErrorModel,
> {
    let fs = spec_fields(line);
    if fs.len() < 3 {
        Err(ParseErrorModel::MalformedRecord { line: lineno })
    } else if !valid_utf8(fs[1]) {
        Err(ParseErrorModel::Encoding { line: lineno })
    } else {
        spec_tags_fold(seg_with_id(decode_utf8(fs[1])), fs, 3, fs[2].len() as int, lineno)
    }
}

/// What decoding a link record yields: from and to identifiers in fields 1
/// and 3, orientations in fields 2 and 4 (forward when absent), and an
/// optional overlap descriptor in field 5.
pub open spec fn spec_link_line(line: Seq<u8>, lineno: int) -> Result<LinkModel, ParseErrorModel> {
    let fs = spec_fields(line);
    if fs.len() < 4 {
        Err(ParseErrorModel::MalformedRecord { line: lineno })
    } else if !valid_utf8(fs[1]) {
        Err(ParseErrorModel::Encoding { line: lineno })
    } else if !valid_utf8(fs[3]) {
        Err(ParseErrorModel::Encoding { line: lineno })
    } else if fs.len() >= 6 && !valid_utf8(fs[5]) {
        Err(ParseErrorModel::Encoding { line: lineno })
    } else {
        Ok(
            LinkModel {
                from: decode_utf8(fs[1]),
                from_orient: spec_orientation(fs[2]),
                to: decode_utf8(fs[3]),
                to_orient: if fs.len() >= 5 {
                    spec_orientation(fs[4])
                } else {
                    Orientation::Positive
                },
                overlap: if fs.len() >= 6 {
                    Some(decode_utf8(fs[5]))
                } else {
                    None
                },
            },
        )
    }
}

/// A segment record entered into the graph: the segment table and the
/// implied-length table are updated, keyed by the identifier.
pub open spec fn gfa_apply_segment(m: GfaModel, seg: SegmentModel, implied: int) -> GfaModel {
    GfaModel {
        segments: seg_upsert(m.segments, seg),
        lengths: length_set(m.lengths, seg.id, implied),
        ..m
    }
}

/// A link record entered into the graph: the link is appended to the flat
/// list, and its handle registered under both endpoints.
pub open spec fn gfa_apply_link(m: GfaModel, l: LinkModel) -> GfaModel {
    let idx = m.links.len() as int;
    GfaModel { links: m.links.push(l), atlas: atlas_add(atlas_add(m.atlas, l.from, idx), l.to, idx), ..m }
}

/// One line entered into the graph: `S` records are segments, `L` records
/// links, and any other leading byte is skipped.
pub open spec fn gfa_step(m: GfaModel, line: Seq<u8>, lineno: int) -> Result<
    GfaModel,
    ParseErrorModel,
> {
    if line.len() == 0 {
        Ok(m)
    } else if line[0] == 83 {
        match spec_segment_line(line, lineno) {
            Err(e) => Err(e),
            Ok((seg, implied)) => Ok(gfa_apply_segment(m, seg, implied)),
        }
    } else if line[0] == 76 {
        match spec_link_line(line, lineno) {
            Err(e) => Err(e),
            Ok(l) => Ok(gfa_apply_link(m, l)),
        }
    } else {
        Ok(m)
    }
}

/// The whole-file fold of `gfa_step` over the lines of `data`, from line `i`
/// on, starting in graph state `m`.
pub open spec fn gfa_fold(data: Seq<u8>, i: int, m: GfaModel) -> Result<GfaModel, ParseErrorModel>
    decreases num_lines(data) - i,
{
    if i < 0 || i >= num_lines(data) {
        Ok(m)
    } else {
        match gfa_step(m, line_content(data, i), i + 1) {
            Err(e) => Err(e),
            Ok(m2) => gfa_fold(data, i + 1, m2),
        }
    }
}

/// The graph of an empty input: no segments, no links.
pub open spec fn init_gfa_model(filename: Seq<char>) -> GfaModel {
    GfaModel {
        filename,
        segments: seq![],
        lengths: seq![],
        links: seq![],
        atlas: seq![],
    }
}

/// What parsing an assembly graph file yields.
pub open spec fn spec_gfa_parse(data: Seq<u8>, filename: Seq<char>) -> Result<
    GfaModel,
    ParseErrorModel,
> {
    gfa_fold(data, 0, init_gfa_model(filename))
}

/// Decode one segment record.
fn parse_segment_line(line: &[u8], lineno: usize) -> (r: Result<(Segment, usize), ParseError>)
    ensures
        match r {
            Ok(p) => spec_segment_line(line@, lineno as int) == Ok::<_, ParseErrorModel>(
                (p.0@, p.1 as int),
            ),
            Err(e) => spec_segment_line(line@, lineno as int) == Err::<(SegmentModel, int), _>(e@),
        },
{
    let ghost fs = spec_fields(line@);
    let fields = split_fields(line);
    if fields.len() < 3 {
        return Err(ParseError::MalformedRecord { line: lineno });
    }
    let id = match bytes_to_string(fields[1].as_slice()) {
        None => {
            return Err(ParseError::Encoding { line: lineno });
        },
        Some(s) => s,
    };
    let implied = fields[2].len();
    let mut seg = Segment {
        id,
        length: None,
        read_count: None,
        fragment_count: None,
        kmer_count: None,
        checksum: 0,
        path: None,
        reference_name: None,
        sequence_order: None,
        orientation: None,
    };
    proof {
        assert(seg@ == seg_with_id(decode_utf8(fs[1])));
    }
    let n = fields.len();
    let mut j: usize = 3;
    while j < n
        invariant
            3 <= j <= n,
            n == fields@.len(),
            n == fs.len(),
            implied as int == fs[2].len(),
            forall|k: int| 0 <= k < n ==> #[trigger] fields@[k]@ == fs[k],
            fs == spec_fields(line@),
            spec_segment_line(line@, lineno as int) == spec_tags_fold(
                seg@,
                fs,
                j as int,
                implied as int,
                lineno as int,
            ),
        decreases n - j,
    {
        let ghost before = seg@;
        match decode_tag(fields[j].as_slice()) {
            Err(e) => {
                proof {
                    assert(spec_tags_fold(before, fs, j as int, implied as int, lineno as int)
                        == Err::<(SegmentModel, int), ParseErrorModel>(
                        spec_line_error(e@, lineno as int),
                    ));
                }
                return Err(line_error(e, lineno));
            },
            Ok(tag) => {
                match tag {
                    TagValue::Length(v) => {
                        if v != implied {
                            return Err(
                                ParseError::LengthMismatch {
                                    line: lineno,
                                    declared: v,
                                    actual: implied,
                                },
                            );
                        }
                        seg.length = Some(v);
                        proof {
                            assert(seg@ == SegmentModel { length: Some(v as int), ..before });
                        }
                    },
                    TagValue::ReadCount(v) => {
                        seg.read_count = Some(v);
                        proof {
                            assert(seg@ == SegmentModel { read_count: Some(v as int), ..before });
                        }
                    },
                    TagValue::FragmentCount(v) => {
                        seg.fragment_count = Some(v);
                        proof {
                            assert(seg@ == SegmentModel {
                                fragment_count: Some(v as int),
                                ..before
                            });
                        }
                    },
                    TagValue::KmerCount(v) => {
                        seg.kmer_count = Some(v);
                        proof {
                            assert(seg@ == SegmentModel { kmer_count: Some(v as int), ..before });
                        }
                    },
                    TagValue::Checksum(v) => {
                        seg.checksum = v;
                        proof {
                            assert(seg@ == SegmentModel { checksum: v as int, ..before });
                        }
                    },
                    TagValue::SourcePath(s) => {
                        let ghost sm = s@;
                        seg.path = Some(s);
                        proof {
                            assert(seg@ == SegmentModel { path: Some(sm), ..before });
                        }
                    },
                    TagValue::Unrecognized => {},
                }
            },
        }
        proof {
            assert(spec_tags_fold(seg@, fs, j as int + 1, implied as int, lineno as int)
                == spec_tags_fold(before, fs, j as int, implied as int, lineno as int));
        }
        j += 1;
    }
    Ok((seg, implied))
}

/// Decode one link record.
fn parse_link_line(line: &[u8], lineno: usize) -> (r: Result<Link, ParseError>)
    ensures
        match r {
            Ok(l) => spec_link_line(line@, lineno as int) == Ok::<_, ParseErrorModel>(l@),
            Err(e) => spec_link_line(line@, lineno as int) == Err::<LinkModel, _>(e@),
        },
{
    let ghost fs = spec_fields(line@);
    let fields = split_fields(line);
    if fields.len() < 4 {
        return Err(ParseError::MalformedRecord { line: lineno });
    }
    let from = match bytes_to_string(fields[1].as_slice()) {
        None => {
            return Err(ParseError::Encoding { line: lineno });
        },
        Some(s) => s,
    };
    let to = match bytes_to_string(fields[3].as_slice()) {
        None => {
            return Err(ParseError::Encoding { line: lineno });
        },
        Some(s) => s,
    };
    let overlap = if fields.len() >= 6 {
        match bytes_to_string(fields[5].as_slice()) {
            None => {
                return Err(ParseError::Encoding { line: lineno });
            },
            Some(s) => Some(s),
        }
    } else {
        None
    };
    let from_orient = Orientation::parse_token(fields[2].as_slice());
    let to_orient = if fields.len() >= 5 {
        Orientation::parse_token(fields[4].as_slice())
    } else {
        Orientation::Positive
    };
    Ok(Link { from, from_orient, to, to_orient, overlap })
}

/// The partial graph model built from the parser's working state.
pub open spec fn partial_model(
    filename: Seq<char>,
    segs: Seq<Segment>,
    lens: Seq<(String, usize)>,
    lks: Seq<Link>,
    atl: Seq<(String, Vec<usize>)>,
) -> GfaModel {
    GfaModel {
        filename,
        segments: seg_models(segs),
        lengths: length_models(lens),
        links: link_models(lks),
        atlas: atlas_models(atl),
    }
}

impl Gfa {
    /// Parse an assembly graph from the bytes of the named file: one pass
    /// over the lines, building the segment and length tables and the link
    /// list with its by-endpoint index.
    pub fn parse(filename: &str, data: &[u8]) -> (r: Result<Gfa, ParseError>)
        ensures
            match r {
                Ok(g) => spec_gfa_parse(data@, filename@) == Ok::<_, ParseErrorModel>(g@),
                Err(e) => spec_gfa_parse(data@, filename@) == Err::<GfaModel, _>(e@),
            },
    {
        let newlines = byte_positions(10, data);
        proof {
            lemma_positions_of(data@, 10);
            lemma_map_pointwise(newlines@, positions_of(data@, 10));
        }
        let nl = count_lines(data, &newlines);
        let fname: String = filename.to_owned();
        let mut segments: Vec<Segment> = Vec::new();
        let mut lengths: Vec<(String, usize)> = Vec::new();
        let mut links: Vec<Link> = Vec::new();
        let mut links_atlas: Vec<(String, Vec<usize>)> = Vec::new();
        proof {
            assert(seg_models(segments@) =~= seq![]);
            assert(length_models(lengths@) =~= seq![]);
            assert(link_models(links@) =~= seq![]);
            assert(atlas_models(links_atlas@) =~= seq![]);
            assert(partial_model(filename@, segments@, lengths@, links@, links_atlas@)
                == init_gfa_model(filename@));
        }
        let mut i: usize = 0;
        while i < nl
            invariant
                0 <= i <= nl,
                nl as int == num_lines(data@),
                fname@ == filename@,
                newlines@.map_values(|x: usize| x as int) == positions_of(data@, 10),
                gfa_fold(data@, 0, init_gfa_model(filename@)) == gfa_fold(
                    data@,
                    i as int,
                    partial_model(filename@, segments@, lengths@, links@, links_atlas@),
                ),
            decreases nl - i,
        {
            let ghost m_cur = partial_model(filename@, segments@, lengths@, links@, links_atlas@);
            let (ls, le) = line_bounds(data, &newlines, i);
            let line = vstd::slice::slice_subrange(data, ls, le);
            proof {
                assert(line@ == line_content(data@, i as int));
            }
            let lineno = i + 1;
            if line.len() == 0 {
                // blank line: skipped
            } else if line[0] == 83 {
                // segment record
                match parse_segment_line(line, lineno) {
                    Err(e) => {
                        proof {
                            assert(gfa_fold(data@, i as int, m_cur) == Err::<GfaModel,
                                ParseErrorModel>(e@));
                        }
                        return Err(e);
                    },
                    Ok((seg, implied)) => {
                        let ghost seg_m = seg@;
                        let key = seg.id.clone();
                        proof {
                            assert(key@ == seg_m.id);
                        }
                        seg_table_upsert(&mut segments, seg);
                        length_table_set(&mut lengths, key, implied);
                        proof {
                            assert(partial_model(
                                filename@,
                                segments@,
                                lengths@,
                                links@,
                                links_atlas@,
                            ) == gfa_apply_segment(m_cur, seg_m, implied as int));
                        }
                    },
                }
            } else if line[0] == 76 {
                // link record
                match parse_link_line(line, lineno) {
                    Err(e) => {
                        proof {
                            assert(gfa_fold(data@, i as int, m_cur) == Err::<GfaModel,
                                ParseErrorModel>(e@));
                        }
                        return Err(e);
                    },
                    Ok(link) => {
                        let ghost link_m = link@;
                        let idx = links.len();
                        let key_from = link.from.clone();
                        let key_to = link.to.clone();
                        proof {
                            assert(key_from@ == link_m.from);
                            assert(key_to@ == link_m.to);
                        }
                        links.push(link);
                        atlas_table_add(&mut links_atlas, key_from, idx);
                        atlas_table_add(&mut links_atlas, key_to, idx);
                        proof {
                            assert(link_models(links@) =~= m_cur.links.push(link_m));
                            assert(partial_model(
                                filename@,
                                segments@,
                                lengths@,
                                links@,
                                links_atlas@,
                            ) == gfa_apply_link(m_cur, link_m));
                        }
                    },
                }
            } else {
                // any other record type: skipped
            }
            i += 1;
        }
        let g = Gfa { filename: fname, segments, lengths, links, links_atlas };
        proof {
            assert(gfa_fold(data@, nl as int, g@) == Ok::<GfaModel, ParseErrorModel>(g@));
        }
        Ok(g)
    }

    /// Look up a segment by identifier. An identifier that no segment record
    /// defined — including one only ever named by a link — yields `None`.
    pub fn segment(&self, id: &str) -> (r: Option<&Segment>)
        ensures
            r is Some <==> seg_find(self@.segments, id@) >= 0,
            r is Some ==> r.unwrap()@ == self@.segments[seg_find(self@.segments, id@)],
    {
        let n = self.segments.len();
        let mut j: usize = 0;
        while j < n
            invariant
                0 <= j <= n,
                n == self.segments@.len(),
                forall|k: int| 0 <= k < j ==> #[trigger] seg_models(self.segments@)[k].id != id@,
            decreases n - j,
        {
            if crate::text::str_eq(self.segments[j].id.as_str(), id) {
                proof {
                    assert(seg_models(self.segments@)[j as int].id == id@);
                    lemma_seg_find(seg_models(self.segments@), id@);
                }
                return Some(&self.segments[j]);
            }
            proof {
                assert(seg_models(self.segments@)[j as int].id == self.segments@[j as int]@.id);
            }
            j += 1;
        }
        proof {
            lemma_seg_find(seg_models(self.segments@), id@);
            if seg_find(seg_models(self.segments@), id@) != -1 {
                assert(seg_models(self.segments@)[seg_find(seg_models(self.segments@), id@)].id
                    == id@);
            }
        }
        None
    }

    /// Look up the implied sequence length recorded for an identifier.
    pub fn length_of(&self, id: &str) -> (r: Option<usize>)
        ensures
            r is Some <==> assoc_find(self@.lengths, id@) >= 0,
            r is Some ==> r.unwrap() as int == self@.lengths[assoc_find(self@.lengths, id@)].1,
    {
        let n = self.lengths.len();
        let mut j: usize = 0;
        while j < n
            invariant
                0 <= j <= n,
                n == self.lengths@.len(),
                forall|k: int| 0 <= k < j ==> (#[trigger] length_models(self.lengths@)[k]).0 != id@,
            decreases n - j,
        {
            if crate::text::str_eq(self.lengths[j].0.as_str(), id) {
                proof {
                    assert((length_models(self.lengths@)[j as int]).0 == id@);
                    lemma_assoc_find(length_models(self.lengths@), id@);
                }
                return Some(self.lengths[j].1);
            }
            proof {
                assert((length_models(self.lengths@)[j as int]).0 == self.lengths@[j as int].0@);
            }
            j += 1;
        }
        proof {
            lemma_assoc_find(length_models(self.lengths@), id@);
            if assoc_find(length_models(self.lengths@), id@) != -1 {
                assert((length_models(self.lengths@)[assoc_find(length_models(self.lengths@), id@)]).0
                    == id@);
            }
        }
        None
    }

    /// Look up the handles of all links that touch an endpoint identifier.
    /// The handles index into `links`.
    pub fn links_of(&self, id: &str) -> (r: Option<&Vec<usize>>)
        ensures
            r is Some <==> assoc_find(self@.atlas, id@) >= 0,
            r is Some ==> r.unwrap()@.map_values(|x: usize| x as int) == self@.atlas[assoc_find(
                self@.atlas,
                id@,
            )].1,
    {
        let n = self.links_atlas.len();
        let mut j: usize = 0;
        while j < n
            invariant
                0 <= j <= n,
                n == self.links_atlas@.len(),
                forall|k: int|
                    0 <= k < j ==> (#[trigger] atlas_models(self.links_atlas@)[k]).0 != id@,
            decreases n - j,
        {
            if crate::text::str_eq(self.links_atlas[j].0.as_str(), id) {
                proof {
                    assert((atlas_models(self.links_atlas@)[j as int]).0 == id@);
                    lemma_assoc_find(atlas_models(self.links_atlas@), id@);
                }
                return Some(&self.links_atlas[j].1);
            }
            proof {
                assert((atlas_models(self.links_atlas@)[j as int]).0 == self.links_atlas@[j as
                    int].0@);
            }
            j += 1;
        }
        proof {
            lemma_assoc_find(atlas_models(self.links_atlas@), id@);
            if assoc_find(atlas_models(self.links_atlas@), id@) != -1 {
                assert((atlas_models(self.links_atlas@)[assoc_find(
                    atlas_models(self.links_atlas@),
                    id@,
                )]).0 == id@);
            }
        }
        None
    }

    /// All identifiers whose implied sequence length is at least the given
    /// threshold, with their lengths, in table order. Used to leave short
    /// contigs out of an overview.
    pub fn segments_with_length_at_least(&self, min_len: usize) -> (r: Vec<(String, usize)>)
        ensures
            length_models(r@) == self@.lengths.filter(
                |p: (Seq<char>, int)| p.1 >= min_len as int,
            ),
    {
        let ghost pred = |p: (Seq<char>, int)| p.1 >= min_len as int;
        let n = self.lengths.len();
        let mut out: Vec<(String, usize)> = Vec::new();
        proof {
            reveal(Seq::filter);
            assert(length_models(self.lengths@).take(0) =~= Seq::<(Seq<char>, int)>::empty());
            assert(length_models(out@) =~= Seq::<(Seq<char>, int)>::empty());
        }
        let mut j: usize = 0;
        while j < n
            invariant
                0 <= j <= n,
                n == self.lengths@.len(),
                length_models(out@) == length_models(self.lengths@).take(j as int).filter(
                    |p: (Seq<char>, int)| p.1 >= min_len as int,
                ),
            decreases n - j,
        {
            let ghost all = length_models(self.lengths@);
            proof {
                reveal(Seq::filter);
                assert(all.take(j as int + 1).drop_last() =~= all.take(j as int));
                assert(all.take(j as int + 1).last() == all[j as int]);
            }
            let ghost out_before = out@;
            if self.lengths[j].1 >= min_len {
                let name = self.lengths[j].0.clone();
                let len = self.lengths[j].1;
                out.push((name, len));
                proof {
                    assert(length_models(out@) =~= length_models(out_before).push(all[j as int]));
                }
            }
            j += 1;
        }
        proof {
            assert(length_models(self.lengths@).take(n as int) =~= length_models(self.lengths@));
        }
        out
    }
}

/// No two rows of the segment table share an identifier.
pub open spec fn unique_ids(segs: Seq<SegmentModel>) -> bool {
    forall|k: int, l: int|
        0 <= k < l < segs.len() ==> (#[trigger] segs[k]).id != (#[trigger] segs[l]).id
}

/// Every segment that carries a declared length agrees with the implied
/// length recorded for its identifier.
pub open spec fn lengths_consistent(m: GfaModel) -> bool {
    forall|k: int|
        0 <= k < m.segments.len() ==> ((#[trigger] m.segments[k]).length is Some ==> assoc_find(
            m.lengths,
            m.segments[k].id,
        ) >= 0 && m.lengths[assoc_find(m.lengths, m.segments[k].id)].1
            == m.segments[k].length.unwrap())
}

/// Folding tags keeps the identifier and the implied length, and any
/// declared length that survives equals the implied length.
proof fn lemma_tags_fold_length(seg: SegmentModel, fs: Seq<Seq<u8>>, j: int, implied: int, lineno: int)
    requires
        seg.length is Some ==> seg.length == Some(implied),
    ensures
        spec_tags_fold(seg, fs, j, implied, lineno) is Ok ==> ({
            let p = spec_tags_fold(seg, fs, j, implied, lineno)->Ok_0;
            &&& p.1 == implied
            &&& p.0.id == seg.id
            &&& (p.0.length is Some ==> p.0.length == Some(implied))
        }),
    decreases fs.len() - j,
{
    if 0 <= j < fs.len() {
        match spec_decode_tag(fs[j]) {
            Err(_) => {},
            Ok(tag) => match tag {
                TagModel::Length(v) => {
                    if v == implied {
                        lemma_tags_fold_length(
                            SegmentModel { length: Some(v), ..seg },
                            fs,
                            j + 1,
                            implied,
                            lineno,
                        );
                    }
                },
                TagModel::ReadCount(v) => {
                    lemma_tags_fold_length(
                        SegmentModel { read_count: Some(v), ..seg },
                        fs,
                        j + 1,
                        implied,
                        lineno,
                    );
                },
                TagModel::FragmentCount(v) => {
                    lemma_tags_fold_length(
                        SegmentModel { fragment_count: Some(v), ..seg },
                        fs,
                        j + 1,
                        implied,
                        lineno,
                    );
                },
                TagModel::KmerCount(v) => {
                    lemma_tags_fold_length(
                        SegmentModel { kmer_count: Some(v), ..seg },
                        fs,
                        j + 1,
                        implied,
                        lineno,
                    );
                },
                TagModel::Checksum(v) => {
                    lemma_tags_fold_length(
                        SegmentModel { checksum: v, ..seg },
                        fs,
                        j + 1,
                        implied,
                        lineno,
                    );
                },
                TagModel::SourcePath(s) => {
                    lemma_tags_fold_length(
                        SegmentModel { path: Some(s), ..seg },
                        fs,
                        j + 1,
                        implied,
                        lineno,
                    );
                },
                TagModel::Unrecognized => {
                    lemma_tags_fold_length(seg, fs, j + 1, implied, lineno);
                },
            },
        }
    }
}

/// Entering a segment record keeps identifiers unique and the length table
/// consistent.
proof fn lemma_apply_segment_wf(m: GfaModel, seg: SegmentModel, implied: int)
    requires
        unique_ids(m.segments),
        lengths_consistent(m),
        seg.length is Some ==> seg.length == Some(implied),
    ensures
        unique_ids(gfa_apply_segment(m, seg, implied).segments),
        lengths_consistent(gfa_apply_segment(m, seg, implied)),
{
    let m2 = gfa_apply_segment(m, seg, implied);
    let r = seg_find(m.segments, seg.id);
    let p = assoc_find(m.lengths, seg.id);
    lemma_seg_find(m.segments, seg.id);
    lemma_assoc_find(m.lengths, seg.id);
    lemma_assoc_find(m2.lengths, seg.id);
    // the new length table holds (seg.id, implied) at its first seg.id row
    let q = assoc_find(m2.lengths, seg.id);
    assert(q >= 0 && m2.lengths[q] == (seg.id, implied)) by {
        if p < 0 {
            assert(m2.lengths == m.lengths.push((seg.id, implied)));
            let last = m.lengths.len() as int;
            assert((m2.lengths[last]).0 == seg.id);
            if q < 0 {
                assert((m2.lengths[last]).0 != seg.id);
                assert(false);
            }
            if q < last {
                assert(m2.lengths[q] == m.lengths[q]);
                assert((m.lengths[q]).0 != seg.id);
                assert((m2.lengths[q]).0 == seg.id);
                assert(false);
            }
            assert(q == last);
        } else {
            assert(m2.lengths == m.lengths.update(p, (seg.id, implied)));
            assert((m2.lengths[p]).0 == seg.id);
            if q < 0 {
                assert((m2.lengths[p]).0 != seg.id);
                assert(false);
            }
            if q < p {
                assert(m2.lengths[q] == m.lengths[q]);
                assert((m.lengths[q]).0 != seg.id);
                assert((m2.lengths[q]).0 == seg.id);
                assert(false);
            }
            if p < q {
                assert((m2.lengths[p]).0 != seg.id);
                assert(false);
            }
            assert(q == p);
        }
    }
    // rows with other keys keep their value and their first position
    assert forall|name: Seq<char>|
        name != seg.id && assoc_find(m.lengths, name) >= 0 implies assoc_find(m2.lengths, name)
        == assoc_find(m.lengths, name) && (m2.lengths[assoc_find(m2.lengths, name)]).1 == (
    m.lengths[assoc_find(m.lengths, name)]).1 by {
        lemma_assoc_find(m.lengths, name);
        lemma_assoc_find(m2.lengths, name);
        let a = assoc_find(m.lengths, name);
        let b = assoc_find(m2.lengths, name);
        if p < 0 {
            assert(m2.lengths == m.lengths.push((seg.id, implied)));
            assert(m2.lengths[a] == m.lengths[a]);
            if b < 0 {
                assert((m2.lengths[a]).0 == name);
                assert(false);
            }
            if b < a {
                assert(m2.lengths[b] == m.lengths[b]);
            }
            if a < b {
                if b < m.lengths.len() {
                    assert(m2.lengths[b] == m.lengths[b]);
                    assert((m.lengths[b]).0 != name);
                } else {
                    assert((m2.lengths[b]).0 == seg.id);
                }
            }
        } else {
            assert(m2.lengths == m.lengths.update(p, (seg.id, implied)));
            assert(a != p);
            assert(m2.lengths[a] == m.lengths[a]);
            if b < 0 {
                assert((m2.lengths[a]).0 == name);
                assert(false);
            }
            if b < a {
                if b == p {
                    assert((m2.lengths[b]).0 == seg.id);
                } else {
                    assert(m2.lengths[b] == m.lengths[b]);
                }
            }
            if a < b {
                assert((m.lengths[b]).0 != name || b == p);
                if b != p {
                    assert(m2.lengths[b] == m.lengths[b]);
                }
            }
        }
    }
    // uniqueness of segment identifiers is preserved
    assert(unique_ids(m2.segments)) by {
        if r < 0 {
            assert(m2.segments == m.segments.push(seg));
            assert forall|k: int, l: int|
                0 <= k < l < m2.segments.len() implies (#[trigger] m2.segments[k]).id
                != (#[trigger] m2.segments[l]).id by {
                if l < m.segments.len() {
                    assert(m2.segments[k] == m.segments[k] && m2.segments[l] == m.segments[l]);
                } else {
                    assert(m2.segments[l] == seg);
                    assert(m2.segments[k] == m.segments[k]);
                    assert(m.segments[k].id != seg.id);
                }
            }
        } else {
            assert(m2.segments == m.segments.update(r, seg));
            assert(m.segments[r].id == seg.id);
            assert forall|k: int, l: int|
                0 <= k < l < m2.segments.len() implies (#[trigger] m2.segments[k]).id
                != (#[trigger] m2.segments[l]).id by {
                assert(m2.segments[k] == if k == r {
                    seg
                } else {
                    m.segments[k]
                });
                assert(m2.segments[l] == if l == r {
                    seg
                } else {
                    m.segments[l]
                });
            }
        }
    }
    // every segment's declared length matches the table
    assert forall|k: int|
        0 <= k < m2.segments.len() && (#[trigger] m2.segments[k]).length is Some implies assoc_find(
        m2.lengths,
        m2.segments[k].id,
    ) >= 0 && (m2.lengths[assoc_find(m2.lengths, m2.segments[k].id)]).1
        == m2.segments[k].length.unwrap() by {
        let upos = if r < 0 {
            m.segments.len() as int
        } else {
            r
        };
        if k == upos {
            assert(m2.segments[k] == seg);
        } else {
            assert(m2.segments[k] == m.segments[k]);
            assert(m.segments[k].id != seg.id) by {
                if r >= 0 {
                    assert(m.segments[r].id == seg.id);
                }
            }
        }
    }
}

/// One link handle is registered under an endpoint name without disturbing
/// what is already registered.
proof fn lemma_atlas_add_preserves(
    atlas: Seq<(Seq<char>, Seq<int>)>,
    key: Seq<char>,
    idx: int,
    name: Seq<char>,
    i: int,
)
    requires
        assoc_find(atlas, name) >= 0,
        atlas[assoc_find(atlas, name)].1.contains(i),
    ensures
        assoc_find(atlas_add(atlas, key, idx), name) >= 0,
        atlas_add(atlas, key, idx)[assoc_find(atlas_add(atlas, key, idx), name)].1.contains(i),
{
    let after = atlas_add(atlas, key, idx);
    let p = assoc_find(atlas, name);
    let t = assoc_find(atlas, key);
    lemma_assoc_find(atlas, name);
    lemma_assoc_find(atlas, key);
    lemma_assoc_find(after, name);
    let q = assoc_find(after, name);
    let w = choose|w: int| 0 <= w < atlas[p].1.len() && atlas[p].1[w] == i;
    if t < 0 {
        assert(after == atlas.push((key, seq![idx])));
        assert(after[p] == atlas[p]);
        if q < 0 {
            assert((after[p]).0 == name);
            assert(false);
        }
        assert(q == p) by {
            if q < p {
                assert(after[q] == atlas[q]);
            }
            if p < q {
                assert((after[p]).0 == name);
            }
        }
        assert(after[q].1[w] == i);
    } else {
        assert(after == atlas.update(t, (key, atlas[t].1.push(idx))));
        assert(q == p) by {
            if q < 0 {
                if p == t {
                    assert((after[t]).0 == key && atlas[p].0 == name);
                    assert((after[t]).0 == name);
                } else {
                    assert(after[p] == atlas[p]);
                }
                assert(false);
            }
            if q < p {
                if q == t {
                    assert(atlas[t].0 == key && (after[t]).0 == key);
                    assert((atlas[q]).0 != name);
                    assert((after[q]).0 != name);
                } else {
                    assert(after[q] == atlas[q]);
                }
            }
            if p < q {
                if p == t {
                    assert((after[p]).0 == key && atlas[p].0 == name);
                } else {
                    assert(after[p] == atlas[p]);
                }
            }
        }
        if p == t {
            assert(after[q].1 == atlas[t].1.push(idx));
            assert(after[q].1[w] == i);
        } else {
            assert(after[q] == atlas[p]);
            assert(after[q].1[w] == i);
        }
    }
}

/// Registering a handle makes it reachable under its key.
proof fn lemma_atlas_add_registers(atlas: Seq<(Seq<char>, Seq<int>)>, key: Seq<char>, idx: int)
    ensures
        assoc_find(atlas_add(atlas, key, idx), key) >= 0,
        atlas_add(atlas, key, idx)[assoc_find(atlas_add(atlas, key, idx), key)].1.contains(idx),
{
    let after = atlas_add(atlas, key, idx);
    let t = assoc_find(atlas, key);
    lemma_assoc_find(atlas, key);
    lemma_assoc_find(after, key);
    let q = assoc_find(after, key);
    if t < 0 {
        assert(after == atlas.push((key, seq![idx])));
        let last = atlas.len() as int;
        assert((after[last]).0 == key);
        if q < 0 {
            assert(false);
        }
        assert(q == last) by {
            if q < last {
                assert(after[q] == atlas[q]);
            }
        }
        assert(after[q].1 == seq![idx]);
        assert(after[q].1[0] == idx);
    } else {
        assert(after == atlas.update(t, (key, atlas[t].1.push(idx))));
        assert((after[t]).0 == key);
        if q < 0 {
            assert(false);
        }
        assert(q == t) by {
            if q < t {
                assert(after[q] == atlas[q]);
            }
            if t < q {
                assert((after[t]).0 == key);
            }
        }
        assert(after[q].1 == atlas[t].1.push(idx));
        assert(after[q].1[atlas[t].1.len() as int] == idx);
    }
}

/// A link handle is registered in the adjacency index under a name.
pub open spec fn atlas_registered(atlas: Seq<(Seq<char>, Seq<int>)>, name: Seq<char>, idx: int) -> bool {
    assoc_find(atlas, name) >= 0 && atlas[assoc_find(atlas, name)].1.contains(idx)
}

/// Every link is registered in the adjacency index under both the from and
/// the to identifier.
pub open spec fn links_symmetric(m: GfaModel) -> bool {
    forall|k: int|
        0 <= k < m.links.len() ==> atlas_registered(m.atlas, (#[trigger] m.links[k]).from, k)
            && atlas_registered(m.atlas, m.links[k].to, k)
}

/// Entering a link keeps the adjacency index symmetric.
proof fn lemma_apply_link_symmetric(m: GfaModel, l: LinkModel)
    requires
        links_symmetric(m),
    ensures
        links_symmetric(gfa_apply_link(m, l)),
{
    let m2 = gfa_apply_link(m, l);
    let idx = m.links.len() as int;
    let mid = atlas_add(m.atlas, l.from, idx);
    assert forall|k: int| 0 <= k < m2.links.len() implies atlas_registered(
        m2.atlas,
        (#[trigger] m2.links[k]).from,
        k,
    ) && atlas_registered(m2.atlas, m2.links[k].to, k) by {
        if k < idx {
            assert(m2.links[k] == m.links[k]);
            lemma_atlas_add_preserves(m.atlas, l.from, idx, m.links[k].from, k);
            lemma_atlas_add_preserves(mid, l.to, idx, m.links[k].from, k);
            lemma_atlas_add_preserves(m.atlas, l.from, idx, m.links[k].to, k);
            lemma_atlas_add_preserves(mid, l.to, idx, m.links[k].to, k);
        } else {
            assert(m2.links[k] == l);
            lemma_atlas_add_registers(m.atlas, l.from, idx);
            lemma_atlas_add_preserves(mid, l.to, idx, l.from, idx);
            lemma_atlas_add_registers(mid, l.to, idx);
        }
    }
}

/// The scan preserves symmetry and length consistency.
proof fn lemma_gfa_fold_wf(data: Seq<u8>, i: int, m: GfaModel)
    requires
        unique_ids(m.segments),
        lengths_consistent(m),
        links_symmetric(m),
    ensures
        gfa_fold(data, i, m) is Ok ==> ({
            let r = gfa_fold(data, i, m)->Ok_0;
            &&& unique_ids(r.segments)
            &&& lengths_consistent(r)
            &&& links_symmetric(r)
        }),
    decreases num_lines(data) - i,
{
    if 0 <= i && i < num_lines(data) {
        let line = line_content(data, i);
        let lineno = i + 1;
        match gfa_step(m, line, lineno) {
            Err(_) => {},
            Ok(m2) => {
                if line.len() > 0 && line[0] == 83 {
                    match spec_segment_line(line, lineno) {
                        Err(_) => {},
                        Ok((seg, implied)) => {
                            let fs = spec_fields(line);
                            lemma_tags_fold_length(
                                seg_with_id(decode_utf8(fs[1])),
                                fs,
                                3,
                                fs[2].len() as int,
                                lineno,
                            );
                            lemma_apply_segment_wf(m, seg, implied);
                        },
                    }
                } else if line.len() > 0 && line[0] == 76 {
                    match spec_link_line(line, lineno) {
                        Err(_) => {},
                        Ok(l) => {
                            lemma_apply_link_symmetric(m, l);
                        },
                    }
                }
                lemma_gfa_fold_wf(data, i + 1, m2);
            },
        }
    }
}

/// Law: in a successfully parsed graph, segment identifiers are unique;
/// every segment's declared length, when present, equals the implied length
/// that the length table records for its identifier (a length tag that
/// disagrees with the inline sequence aborts the parse); and every link is
/// reachable from the adjacency index under both of its endpoints.
pub proof fn lemma_parse_well_formed(data: Seq<u8>, filename: Seq<char>)
    ensures
        spec_gfa_parse(data, filename) is Ok ==> ({
            let g = spec_gfa_parse(data, filename)->Ok_0;
            &&& unique_ids(g.segments)
            &&& lengths_consistent(g)
            &&& links_symmetric(g)
        }),
{
    lemma_gfa_fold_wf(data, 0, init_gfa_model(filename));
}

} // verus!
