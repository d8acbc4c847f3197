use genome_parsers::genome::get_genome;
use genome_parsers::states::AppState;
use genome_parsers::structs::{BrowserState, ClickableLandmark, DisplayDatabase, ExpansionRounds,
    LoadLandmark, Segment, ViewMode, ID};

#[test]
fn example_genome_has_one_chromosome_with_three_genes() {
    let g = get_genome();
    assert_eq!(g.chromosomes.len(), 1);
    let chr = &g.chromosomes[0];
    assert_eq!(chr.length, 1048576);
    assert_eq!(chr.genes.len(), 3);
    assert_eq!((chr.genes[0].start, chr.genes[0].end), (1000, 5000));
    assert_eq!((chr.genes[1].start, chr.genes[1].end), (10000, 20000));
    assert_eq!((chr.genes[2].start, chr.genes[2].end), (500000, 600000));
}

#[test]
fn plain_record_types_construct() {
    let id = ID::from(String::from("seg1"));
    assert_eq!(id.id, "seg1");
    let cl = ClickableLandmark::from("chr1", 42);
    assert_eq!(cl, ClickableLandmark { id: String::from("chr1"), length: 42 });
    let ll = LoadLandmark { id: String::from("chr2") };
    assert_eq!(ll.id, "chr2");
    let er = ExpansionRounds { round: 3 };
    assert_eq!(er.round, 3);
    let db = DisplayDatabase { segments: Vec::new(), links: Vec::new() };
    assert!(db.segments.is_empty() && db.links.is_empty());
    let _v = ViewMode::SequenceOverview;
}

#[test]
fn browser_state_starts_empty() {
    let b = BrowserState::default();
    assert!(b.landmark.is_none());
    assert!(b.gff3.is_none());
    assert!(b.gfa.is_none());
}

#[test]
fn default_segment_is_bare() {
    let s = Segment::default();
    assert_eq!(s.id, "");
    assert_eq!(s.length, None);
    assert_eq!(s.checksum, 0);
    assert_eq!(s.path, None);
}

#[test]
fn app_states_are_distinct() {
    assert_eq!(AppState::MainMenu, AppState::MainMenu);
    assert_ne!(AppState::SequenceOverview, AppState::SequenceView);
    assert_ne!(AppState::Overview, AppState::ChromosomeView);
    assert_ne!(AppState::GeneView, AppState::ProteinView);
}
