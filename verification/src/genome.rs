//! A fixed example genome used by the embedding application while no file is
//! loaded.

use vstd::prelude::*;

verus! {

/// A gene's span on a chromosome.
#[derive(Copy, Clone)]
pub struct Gene {
    pub start: usize,
    pub end: usize,
}

/// A chromosome: its length in bases and its genes.
#[derive(Clone)]
pub struct Chromosome {
    pub length: usize,
    pub genes: Vec<Gene>,
}

/// A genome: a list of chromosomes.
pub struct Genome {
    pub chromosomes: Vec<Chromosome>,
}

/// The example genome: one chromosome of a million bases carrying three
/// genes.
pub fn get_genome() -> (g: Genome)
    ensures
        g.chromosomes@.len() == 1,
        g.chromosomes@[0].length == 1048576,
        g.chromosomes@[0].genes@.len() == 3,
        g.chromosomes@[0].genes@[0] == (Gene { start: 1000, end: 5000 }),
        g.chromosomes@[0].genes@[1] == (Gene { start: 10000, end: 20000 }),
        g.chromosomes@[0].genes@[2] == (Gene { start: 500000, end: 600000 }),
{
    let genes = vec![
        Gene { start: 1000, end: 5000 },
        Gene { start: 10000, end: 20000 },
        Gene { start: 500000, end: 600000 },
    ];
    Genome { chromosomes: vec![Chromosome { length: 1048576, genes }] }
}

} // verus!
