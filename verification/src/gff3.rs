//! The landmark indexer and region query engine. One streaming pass over an
//! annotation file records, for each landmark, the byte offset at which its
//! block of records begins, the block's byte length, the largest coordinate
//! seen, and a feature count. The blocks partition the landmark-bearing byte
//! range of the file; entries are exposed sorted by descending block length.
//! A region query seeks straight to a landmark's block and decodes only its
//! run of lines.

use vstd::prelude::*;

verus! {

use vstd::utf8::{valid_utf8, decode_utf8};
use vstd::seq_lib::group_to_multiset_ensures;
use crate::errors::{ParseError, ParseErrorModel};
use crate::feature::{Feature, FeatureModel, spec_feature_decode, decode_feature_bytes};
use crate::text::{spec_fields, split_fields, trim_spec, trim, line_content, line_start, num_lines,
    positions_of, byte_positions, count_lines, line_bounds, bytes_to_string, parse_usize,
    all_digits, uint_value, lemma_map_pointwise, lemma_positions_of, lemma_line_bounds, str_eq};

/// Mathematical value of one landmark index entry.
pub struct EntryModel {
    pub name: Seq<char>,
    pub offset: int,
    pub length: int,
    pub max_coord: int,
    pub feature_count: int,
}

/// One landmark's index entry: the byte offset at which its block of records
/// begins, the block's byte length, the largest start or end coordinate seen
/// past the block's opening line, and the count of those later lines. The
/// maximum coordinate only estimates the landmark's extent.
#[derive(Clone, Debug, PartialEq)]
pub struct LandmarkEntry {
    pub name: String,
    pub offset: usize,
    pub length: usize,
    pub max_coord: usize,
    pub feature_count: usize,
}

impl View for LandmarkEntry {
    type V = EntryModel;

    open spec fn view(&self) -> EntryModel {
        EntryModel {
            name: self.name@,
            offset: self.offset as int,
            length: self.length as int,
            max_coord: self.max_coord as int,
            feature_count: self.feature_count as int,
        }
    }
}

/// Model of a list of index entries.
pub open spec fn entry_models(s: Seq<LandmarkEntry>) -> Seq<EntryModel> {
    s.map_values(|x: LandmarkEntry| x@)
}

/// Mathematical value of a landmark index.
pub struct Gff3Model {
    pub filename: Seq<char>,
    pub landmarks: Seq<EntryModel>,
}

/// A landmark index over an annotation file: the file's name and one entry
/// per landmark block, sorted by descending block length (ties in file
/// order).
#[derive(Clone, Debug, PartialEq)]
pub struct Gff3 {
    pub filename: String,
    pub landmarks: Vec<LandmarkEntry>,
}

impl View for Gff3 {
    type V = Gff3Model;

    open spec fn view(&self) -> Gff3Model {
        Gff3Model { filename: self.filename@, landmarks: entry_models(self.landmarks@) }
    }
}

/// The running state of the scan: the landmark block currently open.
pub struct CurModel {
    pub name: Seq<char>,
    pub start: int,
    pub max_coord: int,
    pub feature_count: int,
}

/// Model of the exec scan accumulator (whose `length` field is unused while
/// the block is open).
pub open spec fn opt_cur_model(c: Option<LandmarkEntry>) -> Option<CurModel> {
    match c {
        None => None,
        Some(e) => Some(
            CurModel {
                name: e.name@,
                start: e.offset as int,
                max_coord: e.max_coord as int,
                feature_count: e.feature_count as int,
            },
        ),
    }
}

/// The larger of two values.
pub open spec fn max2(a: int, b: int) -> int {
    if a >= b {
        a
    } else {
        b
    }
}

/// The entry that closes a block at the given end offset.
pub open spec fn close_entry(c: CurModel, end: int) -> EntryModel {
    EntryModel {
        name: c.name,
        offset: c.start,
        length: end - c.start,
        max_coord: c.max_coord,
        feature_count: c.feature_count,
    }
}

/// The start and end coordinates of a record's columns 4 and 5, when both
/// are present and decode as in-range unsigned decimal numbers.
pub open spec fn spec_coords(fs: Seq<Seq<u8>>) -> Option<(int, int)> {
    if fs.len() >= 5 && all_digits(fs[3]) && uint_value(fs[3]) <= usize::MAX && all_digits(fs[4])
        && uint_value(fs[4]) <= usize::MAX {
        Some((uint_value(fs[3]), uint_value(fs[4])))
    } else {
        None
    }
}

/// One line of the scan. Comment lines, blank lines and undecodable lines
/// are skipped. A line whose landmark name matches the open block updates
/// the running maximum coordinate and feature count when its coordinates
/// decode, and is otherwise tolerated without being counted. A line with a
/// new name closes the open block at this line's offset and opens a new one
/// with its statistics reset.
pub open spec fn gff3_step(
    done: Seq<EntryModel>,
    cur: Option<CurModel>,
    offset: int,
    content: Seq<u8>,
) -> (Seq<EntryModel>, Option<CurModel>) {
    if content.len() > 0 && content[0] == 35 {
        (done, cur)
    } else {
        let t = trim_spec(content);
        if t.len() == 0 {
            (done, cur)
        } else if !valid_utf8(t) {
            (done, cur)
        } else {
            let fs = spec_fields(t);
            if !valid_utf8(fs[0]) {
                (done, cur)
            } else {
                let name = decode_utf8(fs[0]);
                match cur {
                    None => (
                        done,
                        Some(CurModel { name, start: offset, max_coord: 0, feature_count: 0 }),
                    ),
                    Some(c) => {
                        if c.name == name {
                            match spec_coords(fs) {
                                Some((s, e)) => (
                                    done,
                                    Some(
                                        CurModel {
                                            max_coord: max2(max2(c.max_coord, s), e),
                                            feature_count: c.feature_count + 1,
                                            ..c
                                        },
                                    ),
                                ),
                                None => (done, Some(c)),
                            }
                        } else {
                            (
                                done.push(close_entry(c, offset)),
                                Some(
                                    CurModel {
                                        name,
                                        start: offset,
                                        max_coord: 0,
                                        feature_count: 0,
                                    },
                                ),
                            )
                        }
                    },
                }
            }
        }
    }
}

/// The scan over the lines of `data` from line `i` on; at end of input the
/// open block, if any, closes at the file's total size.
pub open spec fn gff3_fold(
    data: Seq<u8>,
    i: int,
    done: Seq<EntryModel>,
    cur: Option<CurModel>,
) -> Seq<EntryModel>
    decreases num_lines(data) - i,
{
    if i < 0 || i >= num_lines(data) {
        match cur {
            None => done,
            Some(c) => done.push(close_entry(c, data.len() as int)),
        }
    } else {
        let sc = gff3_step(done, cur, line_start(data, i), line_content(data, i));
        gff3_fold(data, i + 1, sc.0, sc.1)
    }
}

/// The index entries of `data`, in file order.
pub open spec fn file_order_entries(data: Seq<u8>) -> Seq<EntryModel> {
    gff3_fold(data, 0, seq![], None)
}

/// The exposure order: longer blocks first; among equal lengths, file order,
/// which is ascending offset order.
pub open spec fn entry_le(a: EntryModel, b: EntryModel) -> bool {
    a.length > b.length || (a.length == b.length && a.offset <= b.offset)
}

/// Sorted for exposure: descending block length, ties by ascending offset.
pub open spec fn entries_sorted(s: Seq<EntryModel>) -> bool {
    forall|i: int, j: int| 0 <= i < j < s.len() ==> entry_le(#[trigger] s[i], #[trigger] s[j])
}

fn entry_le_exec(a: &LandmarkEntry, b: &LandmarkEntry) -> (r: bool)
    ensures
        r == entry_le(a@, b@),
{
    a.length > b.length || (a.length == b.length && a.offset <= b.offset)
}

/// Exchange two rows of the entry table.
fn vec_swap_entries(v: &mut Vec<LandmarkEntry>, a: usize, b: usize)
    requires
        a < b < old(v)@.len(),
    ensures
        final(v)@ == old(v)@.update(a as int, old(v)@[b as int]).update(b as int, old(v)@[a as int]),
{
    let ghost v0 = v@;
    let x = v.remove(a);
    let y = v.remove(b - 1);
    v.insert(a, y);
    v.insert(b, x);
    proof {
        assert(v@ =~= v0.update(a as int, v0[b as int]).update(b as int, v0[a as int]));
    }
}

/// Sort the entry table by descending block length, ties by ascending
/// offset; the rows are a permutation of the input.
fn sort_entries(v: &mut Vec<LandmarkEntry>)
    ensures
        entry_models(final(v)@).to_multiset() == entry_models(old(v)@).to_multiset(),
        entries_sorted(entry_models(final(v)@)),
{
    broadcast use group_to_multiset_ensures;
    broadcast use vstd::seq_lib::to_multiset_update;
    broadcast use vstd::multiset::group_multiset_axioms;

    let n = v.len();
    if n == 0 {
        proof {
            assert(entry_models(v@).to_multiset() =~= entry_models(old(v)@).to_multiset());
        }
        return ;
    }
    let mut i: usize = 1;
    while i < n
        invariant
            1 <= i <= n,
            n == v@.len(),
            entry_models(v@).to_multiset() == entry_models(old(v)@).to_multiset(),
            forall|k: int, l: int|
                0 <= k < l < i ==> entry_le(
                    #[trigger] entry_models(v@)[k],
                    #[trigger] entry_models(v@)[l],
                ),
        decreases n - i,
    {
        let mut j: usize = i;
        while j > 0 && !entry_le_exec(&v[j - 1], &v[j])
            invariant
                0 <= j <= i < n,
                n == v@.len(),
                entry_models(v@).to_multiset() == entry_models(old(v)@).to_multiset(),
                forall|k: int, l: int|
                    0 <= k < l <= i && l != j ==> entry_le(
                        #[trigger] entry_models(v@)[k],
                        #[trigger] entry_models(v@)[l],
                    ),
            decreases j,
        {
            let ghost before = v@;
            vec_swap_entries(v, j - 1, j);
            proof {
                let mb = entry_models(before);
                let ma = entry_models(v@);
                assert(ma =~= mb.update(j - 1, mb[j as int]).update(j as int, mb[j - 1]));
                let mid = mb.update(j - 1, mb[j as int]);
                vstd::seq_lib::to_multiset_update(mb, j - 1, mb[j as int]);
                vstd::seq_lib::to_multiset_update(mid, j as int, mb[j - 1]);
                assert(mid[j as int] == mb[j as int]);
                assert(mb.contains(mb[j - 1]) && mb.contains(mb[j as int]));
                vstd::seq_lib::to_multiset_contains(mb, mb[j - 1]);
                vstd::seq_lib::to_multiset_contains(mb, mb[j as int]);
                assert(mb.to_multiset().count(mb[j - 1]) > 0);
                assert(mb.to_multiset().count(mb[j as int]) > 0);
                assert(ma.to_multiset() =~= mb.to_multiset());
                assert forall|k: int, l: int|
                    0 <= k < l <= i && l != j - 1 implies entry_le(
                    #[trigger] ma[k],
                    #[trigger] ma[l],
                ) by {
                    if l == j {
                        if k < j - 1 {
                            assert(entry_le(mb[k], mb[j - 1]));
                        } else {
                            assert(k == j - 1);
                            assert(!entry_le(mb[j - 1], mb[j as int]));
                        }
                    } else if k == j - 1 || k == j {
                        assert(entry_le(mb[j as int], ma[l]) || entry_le(mb[j - 1], ma[l]));
                    }
                }
            }
            j -= 1;
        }
        proof {
            let m = entry_models(v@);
            assert forall|k: int, l: int| 0 <= k < l <= i implies entry_le(
                #[trigger] m[k],
                #[trigger] m[l],
            ) by {
                if l == j {
                    // the loop stopped because the row fits after its predecessor
                    if k < j - 1 {
                        assert(entry_le(m[k], m[j - 1]));
                    }
                }
            }
        }
        i += 1;
    }
}

/// One line of the exec scan, mirroring `gff3_step`.
fn gff3_step_exec(
    done: &mut Vec<LandmarkEntry>,
    cur: Option<LandmarkEntry>,
    offset: usize,
    line: &[u8],
) -> (newcur: Option<LandmarkEntry>)
    requires
        cur is Some ==> cur.unwrap().offset <= offset,
        cur is Some ==> (cur.unwrap().feature_count as int) < usize::MAX as int,
    ensures
        entry_models(final(done)@) == gff3_step(
            entry_models(old(done)@),
            opt_cur_model(cur),
            offset as int,
            line@,
        ).0,
        opt_cur_model(newcur) == gff3_step(
            entry_models(old(done)@),
            opt_cur_model(cur),
            offset as int,
            line@,
        ).1,
        newcur is Some ==> newcur.unwrap().offset <= offset || (cur is Some
            && newcur.unwrap().offset == cur.unwrap().offset),
        newcur is Some ==> newcur.unwrap().feature_count as int <= (match cur {
            Some(c) => c.feature_count as int + 1,
            None => 0,
        }),
{
    let ghost d0 = entry_models(done@);
    let ghost c0 = opt_cur_model(cur);
    let ghost st = gff3_step(d0, c0, offset as int, line@);
    if line.len() > 0 && line[0] == 35 {
        return cur;
    }
    let t = trim(line);
    if t.len() == 0 {
        return cur;
    }
    if bytes_to_string(t.as_slice()).is_none() {
        return cur;
    }
    let ghost fs = spec_fields(t@);
    let fields = split_fields(t.as_slice());
    let name = match bytes_to_string(fields[0].as_slice()) {
        None => {
            return cur;
        },
        Some(s) => s,
    };
    let coords: Option<(usize, usize)> = if fields.len() >= 5 {
        let cs = parse_usize(fields[3].as_slice());
        let ce = parse_usize(fields[4].as_slice());
        match (cs, ce) {
            (Some(a), Some(b)) => Some((a, b)),
            _ => None,
        }
    } else {
        None
    };
    proof {
        match coords {
            Some(p) => {
                assert(spec_coords(fs) == Some((p.0 as int, p.1 as int)));
            },
            None => {
                assert(spec_coords(fs) is None);
            },
        }
    }
    match cur {
        None => {
            let nc = LandmarkEntry { name, offset, length: 0, max_coord: 0, feature_count: 0 };
            proof {
                assert(opt_cur_model(Some(nc)) == st.1);
            }
            Some(nc)
        },
        Some(mut c) => {
            if c.name == name {
                match coords {
                    Some((s, e)) => {
                        let ghost cm = opt_cur_model(Some(c)).unwrap();
                        if s > c.max_coord {
                            c.max_coord = s;
                        }
                        if e > c.max_coord {
                            c.max_coord = e;
                        }
                        c.feature_count = c.feature_count + 1;
                        proof {
                            assert(c@.max_coord == max2(max2(cm.max_coord, s as int), e as int));
                            assert(opt_cur_model(Some(c)) == st.1);
                        }
                        Some(c)
                    },
                    None => Some(c),
                }
            } else {
                let closed = LandmarkEntry {
                    name: c.name,
                    offset: c.offset,
                    length: offset - c.offset,
                    max_coord: c.max_coord,
                    feature_count: c.feature_count,
                };
                let ghost dm = done@;
                done.push(closed);
                let nc = LandmarkEntry { name, offset, length: 0, max_coord: 0, feature_count: 0 };
                proof {
                    assert(entry_models(done@) =~= entry_models(dm).push(
                        close_entry(c0.unwrap(), offset as int),
                    ));
                    assert(opt_cur_model(Some(nc)) == st.1);
                }
                Some(nc)
            }
        },
    }
}

impl Gff3 {
    /// Build the landmark index of an annotation file given as the bytes of
    /// the named file: one streaming pass over the lines, then a sort by
    /// descending block length. Malformed lines are tolerated, so the build
    /// always succeeds; the entries are a permutation of the file-order scan.
    pub fn parse(filename: &str, data: &[u8]) -> (r: Result<Gff3, ParseError>)
        ensures
            r is Ok,
            r.unwrap()@.filename == filename@,
            entries_sorted(r.unwrap()@.landmarks),
            r.unwrap()@.landmarks.to_multiset() == file_order_entries(data@).to_multiset(),
    {
        let newlines = byte_positions(10, data);
        proof {
            lemma_positions_of(data@, 10);
            lemma_map_pointwise(newlines@, positions_of(data@, 10));
        }
        let nl = count_lines(data, &newlines);
        let mut done: Vec<LandmarkEntry> = Vec::new();
        let mut cur: Option<LandmarkEntry> = None;
        proof {
            assert(entry_models(done@) =~= Seq::<EntryModel>::empty());
        }
        let mut i: usize = 0;
        while i < nl
            invariant
                0 <= i <= nl,
                nl as int == num_lines(data@),
                newlines@.map_values(|x: usize| x as int) == positions_of(data@, 10),
                file_order_entries(data@) == gff3_fold(
                    data@,
                    i as int,
                    entry_models(done@),
                    opt_cur_model(cur),
                ),
                cur is Some ==> (cur.unwrap().offset as int) < data@.len(),
                cur is Some && i < nl ==> cur.unwrap().offset as int <= line_start(
                    data@,
                    i as int,
                ),
                cur is Some ==> cur.unwrap().feature_count as int <= i as int,
            decreases nl - i,
        {
            let ghost d0 = entry_models(done@);
            let ghost c0 = opt_cur_model(cur);
            let (ls, le) = line_bounds(data, &newlines, i);
            let line = vstd::slice::slice_subrange(data, ls, le);
            proof {
                assert(line@ == line_content(data@, i as int));
                lemma_line_bounds(data@, i as int);
                if i as int + 1 < nl as int {
                    lemma_line_bounds(data@, i as int + 1);
                }
            }
            cur = gff3_step_exec(&mut done, cur, ls, line);
            proof {
                let st = gff3_step(d0, c0, ls as int, line@);
                assert(gff3_fold(data@, i as int, d0, c0) == gff3_fold(
                    data@,
                    i as int + 1,
                    st.0,
                    st.1,
                ));
            }
            i += 1;
        }
        let ghost d1 = entry_models(done@);
        let ghost c1 = opt_cur_model(cur);
        match cur {
            None => {
                proof {
                    assert(gff3_fold(data@, nl as int, d1, c1) == d1);
                }
            },
            Some(c) => {
                let closed = LandmarkEntry {
                    name: c.name,
                    offset: c.offset,
                    length: data.len() - c.offset,
                    max_coord: c.max_coord,
                    feature_count: c.feature_count,
                };
                let ghost dm = done@;
                done.push(closed);
                proof {
                    assert(entry_models(done@) =~= entry_models(dm).push(
                        close_entry(c1.unwrap(), data@.len() as int),
                    ));
                    assert(gff3_fold(data@, nl as int, d1, c1) == d1.push(
                        close_entry(c1.unwrap(), data@.len() as int),
                    ));
                }
            },
        }
        proof {
            assert(entry_models(done@) == file_order_entries(data@));
        }
        sort_entries(&mut done);
        let g = Gff3 { filename: filename.to_owned(), landmarks: done };
        Ok(g)
    }
}

/// Index of the first entry with the given landmark name, or -1.
pub open spec fn entry_find(s: Seq<EntryModel>, name: Seq<char>) -> int
    decreases s.len(),
{
    if s.len() == 0 {
        -1
    } else if s[0].name == name {
        0
    } else {
        let r = entry_find(s.drop_first(), name);
        if r < 0 {
            -1
        } else {
            r + 1
        }
    }
}

/// `entry_find` returns -1 exactly when no entry matches, and otherwise the
/// first matching index.
pub proof fn lemma_entry_find(s: Seq<EntryModel>, name: Seq<char>)
    ensures
        entry_find(s, name) == -1 ==> forall|i: int|
            0 <= i < s.len() ==> #[trigger] s[i].name != name,
        entry_find(s, name) != -1 ==> 0 <= entry_find(s, name) < s.len() && s[entry_find(
            s,
            name,
        )].name == name && forall|i: int|
            0 <= i < entry_find(s, name) ==> #[trigger] s[i].name != name,
    decreases s.len(),
{
    if s.len() > 0 && s[0].name != name {
        let rest = s.drop_first();
        lemma_entry_find(rest, name);
        let r = entry_find(rest, name);
        if r < 0 {
            assert forall|i: int| 0 <= i < s.len() implies #[trigger] s[i].name != name by {
                if i >= 1 {
                    assert(s[i] == rest[i - 1]);
                }
            }
        } else {
            assert(s[r + 1] == rest[r]);
            assert forall|i: int| 0 <= i < r + 1 implies #[trigger] s[i].name != name by {
                if i >= 1 {
                    assert(s[i] == rest[i - 1]);
                }
            }
        }
    }
}

/// Model of a list of features.
pub open spec fn feature_models(s: Seq<Feature>) -> Seq<FeatureModel> {
    s.map_values(|f: Feature| f@)
}

/// Where a region scan begins: the recorded offset, clipped to the data's
/// length.
pub open spec fn region_start(off: int, len: int) -> int {
    if off <= len {
        off
    } else {
        len
    }
}

/// The features of a landmark's block: the lines of `sub` from line `i` on,
/// in file order, up to but not including the first decodable line whose
/// landmark differs from the target. Comment lines and undecodable lines are
/// skipped without ending the block.
pub open spec fn region_scan(sub: Seq<u8>, i: int, target: Seq<char>) -> Seq<FeatureModel>
    decreases num_lines(sub) - i,
{
    if i < 0 || i >= num_lines(sub) {
        seq![]
    } else {
        let content = line_content(sub, i);
        if content.len() > 0 && content[0] == 35 {
            region_scan(sub, i + 1, target)
        } else {
            let t = trim_spec(content);
            if t.len() == 0 {
                region_scan(sub, i + 1, target)
            } else if !valid_utf8(t) {
                region_scan(sub, i + 1, target)
            } else {
                match spec_feature_decode(t) {
                    Err(_) => region_scan(sub, i + 1, target),
                    Ok(f) => if f.landmark == target {
                        seq![f] + region_scan(sub, i + 1, target)
                    } else {
                        seq![]
                    },
                }
            }
        }
    }
}

impl Gff3 {
    /// Decode the features of one landmark's block, given the bytes of the
    /// indexed file. The scan starts at the landmark's recorded offset and
    /// stops at the first record of a different landmark; the
    /// previously-recorded maximum coordinate is returned alongside. A name
    /// that the index does not hold yields `LandmarkNotFound`.
    pub fn parse_region(&self, data: &[u8], landmark: &str) -> (r: Result<
        (Vec<Feature>, usize),
        ParseError,
    >)
        ensures
            ({
                let k = entry_find(self@.landmarks, landmark@);
                match r {
                    Err(e) => k == -1 && e@ == (ParseErrorModel::LandmarkNotFound {
                        landmark: landmark@,
                    }),
                    Ok(p) => k >= 0 && p.1 as int == self@.landmarks[k].max_coord
                        && feature_models(p.0@) == region_scan(
                        data@.subrange(
                            region_start(self@.landmarks[k].offset, data@.len() as int),
                            data@.len() as int,
                        ),
                        0,
                        landmark@,
                    ),
                }
            }),
    {
        let n = self.landmarks.len();
        let mut j: usize = 0;
        while j < n
            invariant
                0 <= j <= n,
                n == self.landmarks@.len(),
                forall|k: int|
                    0 <= k < j ==> (#[trigger] entry_models(self.landmarks@)[k]).name
                        != landmark@,
            decreases n - j,
        {
            if str_eq(self.landmarks[j].name.as_str(), landmark) {
                proof {
                    assert(entry_models(self.landmarks@)[j as int].name == landmark@);
                    lemma_entry_find(entry_models(self.landmarks@), landmark@);
                }
                let entry_offset = self.landmarks[j].offset;
                let max_coord = self.landmarks[j].max_coord;
                let start: usize = if entry_offset <= data.len() {
                    entry_offset
                } else {
                    data.len()
                };
                let sub = vstd::slice::slice_subrange(data, start, data.len());
                let feats = scan_region(sub, landmark);
                return Ok((feats, max_coord));
            }
            proof {
                assert(entry_models(self.landmarks@)[j as int].name == self.landmarks@[j as
                    int]@.name);
            }
            j += 1;
        }
        proof {
            lemma_entry_find(entry_models(self.landmarks@), landmark@);
            if entry_find(entry_models(self.landmarks@), landmark@) != -1 {
                assert(entry_models(self.landmarks@)[entry_find(
                    entry_models(self.landmarks@),
                    landmark@,
                )].name == landmark@);
            }
        }
        Err(ParseError::LandmarkNotFound { landmark: landmark.to_owned() })
    }
}

/// Decode the run of records of one landmark from the head of `sub`.
fn scan_region(sub: &[u8], landmark: &str) -> (feats: Vec<Feature>)
    ensures
        feature_models(feats@) == region_scan(sub@, 0, landmark@),
{
    let newlines = byte_positions(10, sub);
    proof {
        lemma_positions_of(sub@, 10);
        lemma_map_pointwise(newlines@, positions_of(sub@, 10));
    }
    let nl = count_lines(sub, &newlines);
    let mut feats: Vec<Feature> = Vec::new();
    proof {
        assert(feature_models(feats@) =~= Seq::<FeatureModel>::empty());
    }
    let mut i: usize = 0;
    while i < nl
        invariant
            0 <= i <= nl,
            nl as int == num_lines(sub@),
            newlines@.map_values(|x: usize| x as int) == positions_of(sub@, 10),
            region_scan(sub@, 0, landmark@) == feature_models(feats@) + region_scan(
                sub@,
                i as int,
                landmark@,
            ),
        decreases nl - i,
    {
        let ghost before = feature_models(feats@);
        let (ls, le) = line_bounds(sub, &newlines, i);
        let line = vstd::slice::slice_subrange(sub, ls, le);
        proof {
            assert(line@ == line_content(sub@, i as int));
        }
        if !(line.len() > 0 && line[0] == 35) {
            let t = trim(line);
            if t.len() > 0 {
                if bytes_to_string(t.as_slice()).is_some() {
                    match decode_feature_bytes(t.as_slice()) {
                        Err(_) => {},
                        Ok(f) => {
                            if str_eq(f.landmark.as_str(), landmark) {
                                let ghost fm = f@;
                                feats.push(f);
                                proof {
                                    assert(feature_models(feats@) =~= before.push(fm));
                                    assert(region_scan(sub@, i as int, landmark@) == seq![fm]
                                        + region_scan(sub@, i as int + 1, landmark@));
                                    assert(before + (seq![fm] + region_scan(
                                        sub@,
                                        i as int + 1,
                                        landmark@,
                                    )) =~= feature_models(feats@) + region_scan(
                                        sub@,
                                        i as int + 1,
                                        landmark@,
                                    ));
                                }
                            } else {
                                proof {
                                    assert(region_scan(sub@, i as int, landmark@) =~= Seq::<
                                        FeatureModel,
                                    >::empty());
                                    assert(before + region_scan(sub@, i as int, landmark@)
                                        =~= before);
                                }
                                return feats;
                            }
                        },
                    }
                }
            }
        }
        i += 1;
    }
    proof {
        assert(region_scan(sub@, nl as int, landmark@) =~= Seq::<FeatureModel>::empty());
        assert(feature_models(feats@) + region_scan(sub@, nl as int, landmark@) =~= feature_models(
            feats@,
        ));
    }
    feats
}

/// Consecutive entries are contiguous: each block starts where the previous
/// one ends.
pub open spec fn chained(s: Seq<EntryModel>) -> bool {
    forall|k: int|
        0 <= k && k + 1 < s.len() ==> (#[trigger] s[k + 1]).offset == s[k].offset + s[k].length
}

/// Every block spans at least one byte.
pub open spec fn positive_lengths(s: Seq<EntryModel>) -> bool {
    forall|k: int| 0 <= k < s.len() ==> (#[trigger] s[k]).length >= 1
}

/// The sum of the block lengths of the entries.
pub open spec fn sum_lengths(s: Seq<EntryModel>) -> int
    decreases s.len(),
{
    if s.len() == 0 {
        0
    } else {
        sum_lengths(s.drop_last()) + s.last().length
    }
}

proof fn lemma_chained_sum(s: Seq<EntryModel>)
    requires
        chained(s),
        s.len() > 0,
    ensures
        sum_lengths(s) == s.last().offset + s.last().length - s[0].offset,
    decreases s.len(),
{
    if s.len() > 1 {
        let d = s.drop_last();
        assert forall|k: int| 0 <= k && k + 1 < d.len() implies (#[trigger] d[k + 1]).offset
            == d[k].offset + d[k].length by {
            assert(d[k + 1] == s[k + 1] && d[k] == s[k]);
        }
        lemma_chained_sum(d);
        let k = s.len() - 2;
        assert((s[k + 1]).offset == s[k].offset + s[k].length);
        assert(s.last() == s[k + 1]);
        assert(d.last() == s[s.len() - 2] && d[0] == s[0]);
        assert(sum_lengths(s) == sum_lengths(d) + s.last().length);
    } else {
        assert(s.drop_last().len() == 0);
        assert(sum_lengths(s) == sum_lengths(s.drop_last()) + s.last().length);
        assert(s.last() == s[0]);
    }
}

proof fn lemma_sum_remove(s: Seq<EntryModel>, i: int)
    requires
        0 <= i < s.len(),
    ensures
        sum_lengths(s.remove(i)) == sum_lengths(s) - s[i].length,
    decreases s.len(),
{
    if i == s.len() - 1 {
        assert(s.remove(i) =~= s.drop_last());
    } else {
        assert(s.remove(i).drop_last() =~= s.drop_last().remove(i));
        assert(s.remove(i).last() == s.last());
        lemma_sum_remove(s.drop_last(), i);
    }
}

proof fn lemma_sum_multiset(s1: Seq<EntryModel>, s2: Seq<EntryModel>)
    requires
        s1.to_multiset() == s2.to_multiset(),
    ensures
        sum_lengths(s1) == sum_lengths(s2),
    decreases s1.len(),
{
    vstd::seq_lib::to_multiset_len(s1);
    vstd::seq_lib::to_multiset_len(s2);
    if s1.len() > 0 {
        let x = s1.last();
        assert(s1.contains(x));
        vstd::seq_lib::to_multiset_contains(s1, x);
        vstd::seq_lib::to_multiset_contains(s2, x);
        assert(s2.contains(x));
        let j = choose|j: int| 0 <= j < s2.len() && s2[j] == x;
        vstd::seq_lib::to_multiset_remove(s1, s1.len() - 1);
        vstd::seq_lib::to_multiset_remove(s2, j);
        assert(s1.remove(s1.len() - 1) =~= s1.drop_last());
        lemma_sum_multiset(s1.drop_last(), s2.remove(j));
        lemma_sum_remove(s2, j);
    }
}

/// The scan extends the finished entries contiguously and ends the last
/// block at the file's total size.
proof fn lemma_fold_partition(data: Seq<u8>, i: int, done: Seq<EntryModel>, cur: Option<CurModel>)
    requires
        0 <= i <= num_lines(data),
        chained(done),
        positive_lengths(done),
        done.len() > 0 ==> cur is Some,
        cur is Some ==> cur.unwrap().start < data.len(),
        cur is Some && i < num_lines(data) ==> cur.unwrap().start < line_start(data, i),
        cur is Some && done.len() > 0 ==> cur.unwrap().start == done.last().offset
            + done.last().length,
    ensures
        ({
            let r = gff3_fold(data, i, done, cur);
            &&& chained(r)
            &&& positive_lengths(r)
            &&& r.len() >= done.len()
            &&& forall|k: int| 0 <= k < done.len() ==> r[k] == done[k]
            &&& (cur is Some || r.len() > done.len() ==> r.len() > 0 && r.last().offset
                + r.last().length == data.len() as int)
            &&& (cur is None && r.len() == done.len() ==> r == done)
        }),
    decreases num_lines(data) - i,
{
    let r = gff3_fold(data, i, done, cur);
    if i >= num_lines(data) {
        match cur {
            None => {},
            Some(c) => {
                let e = close_entry(c, data.len() as int);
                assert(r == done.push(e));
                assert forall|k: int| 0 <= k && k + 1 < r.len() implies (#[trigger] r[k
                    + 1]).offset == r[k].offset + r[k].length by {
                    if k + 1 < done.len() {
                        assert(r[k] == done[k] && r[k + 1] == done[k + 1]);
                    } else {
                        assert(r[k] == done.last() && r[k + 1] == e);
                    }
                }
            },
        }
    } else {
        let off = line_start(data, i);
        let content = line_content(data, i);
        let st = gff3_step(done, cur, off, content);
        lemma_line_bounds(data, i);
        if i + 1 < num_lines(data) {
            lemma_line_bounds(data, i + 1);
        }
        // the step leaves the state alone, opens a block at this line's
        // offset, folds statistics into the open block, or closes the open
        // block here and opens a new one
        assert(chained(st.0) && positive_lengths(st.0)) by {
            if st.0.len() > done.len() {
                let c = cur.unwrap();
                let e = close_entry(c, off);
                assert(st.0 == done.push(e));
                assert forall|k: int| 0 <= k && k + 1 < st.0.len() implies (#[trigger] st.0[k
                    + 1]).offset == st.0[k].offset + st.0[k].length by {
                    if k + 1 < done.len() {
                        assert(st.0[k] == done[k] && st.0[k + 1] == done[k + 1]);
                    } else {
                        assert(st.0[k] == done.last() && st.0[k + 1] == e);
                    }
                }
            }
        }
        lemma_fold_partition(data, i + 1, st.0, st.1);
    }
}

/// Law: in file order, the landmark blocks partition the file's
/// landmark-bearing byte range: consecutive blocks are contiguous, every
/// block is non-empty, and the block lengths sum to the file size minus the
/// first block's offset.
pub proof fn lemma_index_partitions_file(data: Seq<u8>)
    ensures
        chained(file_order_entries(data)),
        positive_lengths(file_order_entries(data)),
        file_order_entries(data).len() > 0 ==> sum_lengths(file_order_entries(data))
            == data.len() - file_order_entries(data)[0].offset,
{
    lemma_fold_partition(data, 0, seq![], None);
    let r = file_order_entries(data);
    if r.len() > 0 {
        lemma_chained_sum(r);
    }
}

/// Law: the entries of a built index — any permutation of the file-order
/// scan, such as the length-sorted exposure order — have block lengths that
/// sum to the file size minus the offset of the first block in file order.
pub proof fn lemma_index_sum(data: Seq<u8>, entries: Seq<EntryModel>)
    requires
        entries.to_multiset() == file_order_entries(data).to_multiset(),
    ensures
        entries.len() > 0 ==> sum_lengths(entries) == data.len() - file_order_entries(
            data,
        )[0].offset,
{
    lemma_index_partitions_file(data);
    lemma_sum_multiset(entries, file_order_entries(data));
    vstd::seq_lib::to_multiset_len(entries);
    vstd::seq_lib::to_multiset_len(file_order_entries(data));
}

/// No two entries share a block offset.
pub open spec fn distinct_offsets(s: Seq<EntryModel>) -> bool {
    forall|k: int, l: int|
        0 <= k < l < s.len() ==> (#[trigger] s[k]).offset != (#[trigger] s[l]).offset
}

proof fn lemma_chained_pair(s: Seq<EntryModel>, k: int, l: int)
    requires
        chained(s),
        positive_lengths(s),
        0 <= k < l < s.len(),
    ensures
        s[k].offset < s[l].offset,
    decreases l - k,
{
    if l == k + 1 {
        assert(s[k + 1].offset == s[k].offset + s[k].length);
    } else {
        lemma_chained_pair(s, k, l - 1);
        assert(s[(l - 1) + 1].offset == s[l - 1].offset + s[l - 1].length);
    }
}

proof fn lemma_chained_distinct(s: Seq<EntryModel>)
    requires
        chained(s),
        positive_lengths(s),
    ensures
        distinct_offsets(s),
{
    assert forall|k: int, l: int|
        0 <= k < l < s.len() implies (#[trigger] s[k]).offset != (#[trigger] s[l]).offset by {
        lemma_chained_pair(s, k, l);
    }
}

/// Distinct offsets carry over to any permutation.
proof fn lemma_distinct_offsets_multiset(s: Seq<EntryModel>, t: Seq<EntryModel>)
    requires
        s.to_multiset() == t.to_multiset(),
        distinct_offsets(t),
    ensures
        distinct_offsets(s),
{
    assert forall|k: int, l: int|
        0 <= k < l < s.len() implies (#[trigger] s[k]).offset != (#[trigger] s[l]).offset by {
        if s[k].offset == s[l].offset {
            if s[k] == s[l] {
                // a value held twice in s would be held twice in t, whose
                // entries all differ in offset and hence in value
                assert forall|a: int, b: int| 0 <= a < b < t.len() implies (#[trigger] t[a])
                    != (#[trigger] t[b]) by {
                    assert(t[a].offset != t[b].offset);
                }
                t.lemma_multiset_has_no_duplicates();
                vstd::seq_lib::to_multiset_contains(s, s[k]);
                s.lemma_multiset_has_no_duplicates_conv();
            } else {
                // two distinct values of s both live in t, at distinct
                // positions that would share an offset
                assert(s.contains(s[k]) && s.contains(s[l]));
                vstd::seq_lib::to_multiset_contains(s, s[k]);
                vstd::seq_lib::to_multiset_contains(s, s[l]);
                vstd::seq_lib::to_multiset_contains(t, s[k]);
                vstd::seq_lib::to_multiset_contains(t, s[l]);
                let a = choose|a: int| 0 <= a < t.len() && t[a] == s[k];
                let b = choose|b: int| 0 <= b < t.len() && t[b] == s[l];
                assert(t[a].offset != t[b].offset);
            }
        }
    }
}

/// Two sequences sorted for exposure, holding the same entries with distinct
/// offsets, are equal.
proof fn lemma_sorted_unique(s1: Seq<EntryModel>, s2: Seq<EntryModel>)
    requires
        entries_sorted(s1),
        entries_sorted(s2),
        s1.to_multiset() == s2.to_multiset(),
        distinct_offsets(s1),
    ensures
        s1 == s2,
    decreases s1.len(),
{
    vstd::seq_lib::to_multiset_len(s1);
    vstd::seq_lib::to_multiset_len(s2);
    if s1.len() == 0 {
        assert(s1 =~= s2);
    } else {
        assert(s1.contains(s1[0]) && s2.contains(s2[0]));
        vstd::seq_lib::to_multiset_contains(s1, s1[0]);
        vstd::seq_lib::to_multiset_contains(s2, s1[0]);
        vstd::seq_lib::to_multiset_contains(s1, s2[0]);
        vstd::seq_lib::to_multiset_contains(s2, s2[0]);
        let i2 = choose|i: int| 0 <= i < s2.len() && s2[i] == s1[0];
        let i1 = choose|i: int| 0 <= i < s1.len() && s1[i] == s2[0];
        // the heads precede each other in the exposure order, so they share
        // length and offset, and distinct offsets make them the same entry
        assert(entry_le(s1[0], s1[i1]) || i1 == 0);
        assert(entry_le(s2[0], s2[i2]) || i2 == 0);
        assert(s1[0] == s2[0]) by {
            if i1 != 0 && i2 != 0 {
                assert(entry_le(s1[0], s2[0]) && entry_le(s2[0], s1[0]));
                assert(s1[0].offset == s2[0].offset);
                assert(s1[i1].offset == s1[0].offset);
                assert(false);
            }
        }
        let t1 = s1.drop_first();
        let t2 = s2.drop_first();
        vstd::seq_lib::to_multiset_remove(s1, 0);
        vstd::seq_lib::to_multiset_remove(s2, 0);
        assert(s1.remove(0) =~= t1);
        assert(s2.remove(0) =~= t2);
        assert forall|k: int, l: int| 0 <= k < l < t1.len() implies entry_le(
            #[trigger] t1[k],
            #[trigger] t1[l],
        ) by {
            assert(t1[k] == s1[k + 1] && t1[l] == s1[l + 1]);
        }
        assert forall|k: int, l: int| 0 <= k < l < t2.len() implies entry_le(
            #[trigger] t2[k],
            #[trigger] t2[l],
        ) by {
            assert(t2[k] == s2[k + 1] && t2[l] == s2[l + 1]);
        }
        assert forall|k: int, l: int|
            0 <= k < l < t1.len() implies (#[trigger] t1[k]).offset != (#[trigger] t1[l]).offset by {
            assert(t1[k] == s1[k + 1] && t1[l] == s1[l + 1]);
        }
        lemma_sorted_unique(t1, t2);
        assert forall|k: int| 0 <= k < s1.len() implies s1[k] == s2[k] by {
            if k >= 1 {
                assert(s1[k] == t1[k - 1] && s2[k] == t2[k - 1]);
            }
        }
        assert(s1 =~= s2);
    }
}

/// Law: building the landmark index twice over the same bytes yields the
/// same entries in the same exposure order: any two sorted permutations of
/// the file-order scan are identical, because blocks have distinct offsets.
pub proof fn lemma_index_build_idempotent(
    data: Seq<u8>,
    e1: Seq<EntryModel>,
    e2: Seq<EntryModel>,
)
    requires
        entries_sorted(e1),
        entries_sorted(e2),
        e1.to_multiset() == file_order_entries(data).to_multiset(),
        e2.to_multiset() == file_order_entries(data).to_multiset(),
    ensures
        e1 == e2,
{
    lemma_index_partitions_file(data);
    lemma_chained_distinct(file_order_entries(data));
    lemma_distinct_offsets_multiset(e1, file_order_entries(data));
    lemma_sorted_unique(e1, e2);
}

/// Law: a region scan returns only features whose landmark equals the
/// requested one; they appear in file order.
pub proof fn lemma_region_features_match(sub: Seq<u8>, i: int, target: Seq<char>)
    ensures
        forall|k: int|
            0 <= k < region_scan(sub, i, target).len() ==> (#[trigger] region_scan(
                sub,
                i,
                target,
            )[k]).landmark == target,
    decreases num_lines(sub) - i,
{
    if 0 <= i && i < num_lines(sub) {
        lemma_region_features_match(sub, i + 1, target);
        let r = region_scan(sub, i, target);
        let rest = region_scan(sub, i + 1, target);
        let content = line_content(sub, i);
        if !(content.len() > 0 && content[0] == 35) {
            let t = trim_spec(content);
            if t.len() != 0 && valid_utf8(t) {
                match spec_feature_decode(t) {
                    Err(_) => {},
                    Ok(f) => {
                        if f.landmark == target {
                            assert forall|k: int| 0 <= k < r.len() implies (#[trigger] r[
                                k]).landmark == target by {
                                if k >= 1 {
                                    assert(r[k] == rest[k - 1]);
                                }
                            }
                        }
                    },
                }
            }
        }
    }
}

} // verus!
