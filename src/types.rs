//! Configuration, variant records as the variant source hands them over, and
//! the variant index.

use crate::alleles::{strictly_sorted, views_of};
use std::collections::HashMap;
use vstd::prelude::*;

verus! {

broadcast use vstd::std_specs::hash::group_hash_axioms;

/// Expected row count; the index reserves room for this many sites.
const NUM_ROWS: usize = 1_000_000;

/// A byte string: a chromosome name, a sequence, an allele.
pub type U8Vec = Vec<u8>;

/// Settings of one run.
#[derive(Debug)]
pub struct AppConfig {
    pub fasta: String,
    pub vcf: String,
    pub verbosity: u8,
    pub region_start: usize,
    pub region_end: Option<usize>,
    pub output_line_length: usize,
}

/// One decoded variant record: the chromosome, the 1-based position at which
/// `reference` begins, the reference allele and the alternative alleles.
#[derive(Debug)]
pub struct VariantRecord {
    pub chrom: U8Vec,
    pub pos: u64,
    pub reference: U8Vec,
    pub alts: Vec<U8Vec>,
}

/// What the variant source produced when asked for its next record.
#[derive(Debug)]
pub enum SourceEvent {
    RecordReady(VariantRecord),
    DecodeError,
    EndOfStream,
}

/// What became of one event, and so what the reading loop does next.
#[derive(Debug, Clone, Copy, PartialEq, Eq)]
pub enum Ingest {
    /// The record's alleles were added to the index.
    Indexed,
    /// The record names another chromosome and was dropped.
    Ignored,
    /// The record could not be decoded and was skipped.
    Skipped,
    /// The record lies past the end of the reference: ingestion stops.
    Overrun,
    /// The source has no more records.
    Finished,
}

/// A fatal fault in the variant input.
#[derive(Debug, Clone, Copy, PartialEq, Eq)]
pub enum IndexError {
    /// A record at position 0, which a 1-based coordinate cannot be.
    ZeroPosition,
}

/// The variant index: the allele set at each variant site, and the sites in
/// the order in which they were first seen.
pub struct Index {
    pub data: HashMap<usize, Vec<U8Vec>>,
    pub positions: Vec<usize>,
}

/// The index as a mathematical value: the sites in order of first sight, and
/// the set of alleles at each.
pub struct IndexView {
    pub positions: Seq<usize>,
    pub sites: Map<usize, Set<Seq<u8>>>,
}

impl View for Index {
    type V = IndexView;

    open spec fn view(&self) -> IndexView {
        IndexView {
            positions: self.positions@,
            sites: self.data@.map_values(|v: Vec<U8Vec>| views_of(v@).to_set()),
        }
    }
}

impl Index {
    /// The stored allele sequence of every site.
    pub open spec fn allele_map(&self) -> Map<usize, Seq<Seq<u8>>> {
        self.data@.map_values(|v: Vec<U8Vec>| views_of(v@))
    }

    /// The stored allele sequence at site `p`.
    pub open spec fn alleles_at(&self, p: usize) -> Seq<Seq<u8>> {
        views_of(self.data@[p]@)
    }

    /// Well-formed for a reference of `num_bases` bases: each site is listed
    /// once and is a key of `data`, and the converse; each allele sequence is
    /// non-empty and sorted without repeats; each site lies on the reference.
    pub open spec fn wf(&self, num_bases: nat) -> bool {
        &&& self.positions@.no_duplicates()
        &&& forall|p: usize| #[trigger]
            self.data@.contains_key(p) <==> self.positions@.contains(p)
        &&& forall|p: usize| #[trigger]
            self.data@.contains_key(p) ==> {
                &&& p < num_bases
                &&& self.alleles_at(p).len() > 0
                &&& strictly_sorted(self.alleles_at(p))
            }
    }

    /// An empty index.
    pub fn new() -> (r: Self)
        ensures
            r@.positions == Seq::<usize>::empty(),
            r@.sites == Map::<usize, Set<Seq<u8>>>::empty(),
            forall|n: nat| r.wf(n),
    {
        let r = Index { data: HashMap::with_capacity(NUM_ROWS), positions: Vec::with_capacity(NUM_ROWS) };
        proof {
            assert(r@.positions =~= Seq::<usize>::empty());
            assert(r@.sites =~= Map::<usize, Set<Seq<u8>>>::empty());
        }
        r
    }
}

} // verus!
