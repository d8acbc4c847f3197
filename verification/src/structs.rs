//! Core data types of the assembly graph: orientations, links, segments,
//! and small plain record types shared with the embedding application.

use vstd::prelude::*;

verus! {

/// Mapping of an optional machine integer to its mathematical value.
pub open spec fn opt_int(o: Option<usize>) -> Option<int> {
    match o {
        Some(v) => Some(v as int),
        None => None,
    }
}

/// Mapping of an optional string to its character-sequence view.
pub open spec fn opt_chars(o: Option<String>) -> Option<Seq<char>> {
    match o {
        Some(s) => Some(s@),
        None => None,
    }
}

/// Strand marker of a segment endpoint, written `+` or `-` in link records.
#[derive(Clone, Debug, Copy, PartialEq, Eq, Structural)]
pub enum Orientation {
    Positive,
    Negative,
}

/// The orientation denoted by an orientation token: `-` is the reverse
/// strand; anything else (including an absent or unrecognized token)
/// defaults to the forward strand.
pub open spec fn spec_orientation(t: Seq<u8>) -> Orientation {
    if t == seq![45u8] {
        Orientation::Negative
    } else {
        Orientation::Positive
    }
}

impl Orientation {
    /// Decode an orientation token.
    pub fn parse_token(t: &[u8]) -> (o: Orientation)
        ensures
            o == spec_orientation(t@),
    {
        if t.len() == 1 && t[0] == 45 {
            proof {
                assert(t@ =~= seq![45u8]);
            }
            Orientation::Negative
        } else {
            proof {
                if t@ == seq![45u8] {
                    assert(t@[0] == 45u8);
                    assert(false);
                }
            }
            Orientation::Positive
        }
    }
}

impl Default for Orientation {
    /// The forward strand is the default orientation.
    fn default() -> (r: Orientation)
        ensures
            r == Orientation::Positive,
    {
        Orientation::Positive
    }
}

/// Mathematical value of a link record.
pub struct LinkModel {
    pub from: Seq<char>,
    pub from_orient: Orientation,
    pub to: Seq<char>,
    pub to_orient: Orientation,
    pub overlap: Option<Seq<char>>,
}

/// A directed, oriented edge between two segments, with an optional overlap
/// descriptor. A link may name segments that no segment record defines.
#[derive(Clone, Debug, PartialEq)]
pub struct Link {
    pub from: String,
    pub from_orient: Orientation,
    pub to: String,
    pub to_orient: Orientation,
    pub overlap: Option<String>,
}

impl View for Link {
    type V = LinkModel;

    open spec fn view(&self) -> LinkModel {
        LinkModel {
            from: self.from@,
            from_orient: self.from_orient,
            to: self.to@,
            to_orient: self.to_orient,
            overlap: opt_chars(self.overlap),
        }
    }
}

/// Mathematical value of a segment record.
pub struct SegmentModel {
    pub id: Seq<char>,
    pub length: Option<int>,
    pub read_count: Option<int>,
    pub fragment_count: Option<int>,
    pub kmer_count: Option<int>,
    pub checksum: int,
    pub path: Option<Seq<char>>,
    pub reference_name: Option<Seq<char>>,
    pub sequence_order: Option<int>,
    pub orientation: Option<Orientation>,
}

/// A named node of the assembly graph, with the optional typed tag values
/// of its record. A checksum of zero means "absent".
#[derive(Clone, Debug, PartialEq)]
pub struct Segment {
    pub id: String,
    pub length: Option<usize>,
    pub read_count: Option<usize>,
    pub fragment_count: Option<usize>,
    pub kmer_count: Option<usize>,
    pub checksum: u64,
    pub path: Option<String>,
    pub reference_name: Option<String>,
    pub sequence_order: Option<usize>,
    pub orientation: Option<Orientation>,
}

impl View for Segment {
    type V = SegmentModel;

    open spec fn view(&self) -> SegmentModel {
        SegmentModel {
            id: self.id@,
            length: opt_int(self.length),
            read_count: opt_int(self.read_count),
            fragment_count: opt_int(self.fragment_count),
            kmer_count: opt_int(self.kmer_count),
            checksum: self.checksum as int,
            path: opt_chars(self.path),
            reference_name: opt_chars(self.reference_name),
            sequence_order: opt_int(self.sequence_order),
            orientation: self.orientation,
        }
    }
}

/// The segment model with no tags set and an empty identifier.
pub open spec fn empty_segment_model() -> SegmentModel {
    SegmentModel {
        id: Seq::empty(),
        length: None,
        read_count: None,
        fragment_count: None,
        kmer_count: None,
        checksum: 0,
        path: None,
        reference_name: None,
        sequence_order: None,
        orientation: None,
    }
}

impl Default for Segment {
    /// A segment with an empty identifier and every optional value absent.
    fn default() -> (r: Segment)
        ensures
            r@ == empty_segment_model(),
    {
        Segment {
            id: String::new(),
            length: None,
            read_count: None,
            fragment_count: None,
            kmer_count: None,
            checksum: 0,
            path: None,
            reference_name: None,
            sequence_order: None,
            orientation: None,
        }
    }
}

/// An event asking the view layer to load one landmark.
pub struct LoadLandmark {
    pub id: String,
}

/// An event noting that the camera has moved.
pub struct CameraMoved;

/// A marker asking for the links of an entity to be examined.
pub struct CheckLinks;

/// A plain wrapper for a segment or landmark identifier.
pub struct ID {
    pub id: String,
}

impl ID {
    pub fn from(id: String) -> (r: Self)
        ensures
            r.id == id,
    {
        Self { id }
    }
}

/// Counter of expansion passes over the link neighbourhood.
pub struct ExpansionRounds {
    pub round: usize,
}

/// Parsed entities handed over for display.
pub struct DisplayDatabase {
    pub segments: Vec<Segment>,
    pub links: Vec<Link>,
}

/// Which kind of view the interface is showing.
pub enum ViewMode {
    SequenceOverview,
    Chromosome,
    Gene,
    Protein,
}

/// What the browser currently shows: the selected landmark and its length,
/// and the parsed files, when loaded.
pub struct BrowserState {
    pub landmark: Option<(String, usize)>,
    pub gff3: Option<crate::gff3::Gff3>,
    pub gfa: Option<crate::gfa::Gfa>,
}

impl Default for BrowserState {
    /// Nothing selected and nothing loaded.
    fn default() -> (r: BrowserState)
        ensures
            r.landmark is None,
            r.gff3 is None,
            r.gfa is None,
    {
        BrowserState { landmark: None, gff3: None, gfa: None }
    }
}

/// A landmark as presented for selection: its identifier and length.
#[derive(PartialEq, Debug)]
pub struct ClickableLandmark {
    pub id: String,
    pub length: usize,
}

impl ClickableLandmark {
    pub fn from(id: &str, length: usize) -> (r: Self)
        ensures
            r.id@ == id@,
            r.length == length,
    {
        ClickableLandmark { id: id.to_owned(), length }
    }
}

} // verus!
