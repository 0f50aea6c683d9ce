use vstd::prelude::*;

verus! {

/// One FASTQ record: name, description, residues and per-residue quality bytes.
#[derive(Clone, Debug)]
pub struct FastqRecordNif {
    pub name: String,
    pub description: String,
    pub sequence: Vec<u8>,
    pub quality: Vec<u8>,
}

/// An open reading frame: half-open coordinates, frame, strand and residues.
#[derive(Clone, Debug)]
pub struct OrfResultNif {
    pub start: usize,
    pub end: usize,
    pub frame: usize,
    pub strand: String,
    pub sequence: Vec<u8>,
}

/// Shape of a CSV table.
#[derive(Clone, Debug)]
pub struct CsvInfoNif {
    pub row_count: u64,
    pub column_count: usize,
    pub columns: Vec<String>,
    pub has_headers: bool,
}

/// Counts over a VCF file.
#[derive(Clone, Debug)]
pub struct VcfStatsNif {
    pub variant_count: u64,
    pub snv_count: u64,
    pub indel_count: u64,
    pub pass_count: u64,
    pub chromosomes: Vec<String>,
}

/// Counts over a BED file.
#[derive(Clone, Debug)]
pub struct BedStatsNif {
    pub record_count: u64,
    pub total_bases: u64,
    pub chromosomes: Vec<String>,
}

/// Counts over a GFF3 file.
#[derive(Clone, Debug)]
pub struct GffStatsNif {
    pub gene_count: u64,
    pub transcript_count: u64,
    pub exon_count: u64,
    pub protein_coding_count: u64,
    pub chromosomes: Vec<String>,
}

/// One gene of a GFF3 file.
#[derive(Clone, Debug)]
pub struct GffGeneNif {
    pub id: String,
    pub symbol: String,
    pub chrom: String,
    pub start: u64,
    pub end: u64,
    pub strand: String,
    pub gene_type: String,
    pub transcript_count: usize,
}

/// One SAM record, with its CIGAR string as text.
#[derive(Clone, Debug)]
pub struct SamRecordNif {
    pub qname: String,
    pub flag: u16,
    pub rname: String,
    pub pos: u64,
    pub mapq: u8,
    pub cigar: String,
    pub sequence: String,
    pub quality: String,
}

/// The class of one variant.
#[derive(Clone, Debug)]
pub struct VariantClassificationNif {
    pub chrom: String,
    pub position: u64,
    pub variant_type: String,
    pub is_snv: bool,
    pub is_indel: bool,
    pub is_transition: bool,
    pub is_transversion: bool,
}

/// A stranded genomic interval.
#[derive(Clone, Debug)]
pub struct GenomicIntervalNif {
    pub chrom: String,
    pub start: u64,
    pub end: u64,
    pub strand: String,
}

/// Cluster labels of a density clustering (`-1` for noise).
#[derive(Clone, Debug)]
pub struct DbscanResultNif {
    pub labels: Vec<i32>,
    pub n_clusters: usize,
}

/// Summary of a protein structure.
#[derive(Clone, Debug)]
pub struct PdbInfoNif {
    pub id: String,
    pub chain_count: usize,
    pub residue_count: usize,
    pub atom_count: usize,
    pub chains: Vec<String>,
}

/// Summary of a Newick tree.
#[derive(Clone, Debug)]
pub struct NewickInfoNif {
    pub leaf_count: usize,
    pub leaf_names: Vec<String>,
    pub newick: String,
}

/// Contents of a NEXUS file: taxa and named trees.
#[derive(Clone, Debug)]
pub struct NexusFileNif {
    pub taxa: Vec<String>,
    pub tree_names: Vec<String>,
    pub tree_newicks: Vec<String>,
}

/// Whether a GPU backend is available, and which.
#[derive(Clone, Debug)]
pub struct GpuInfoNif {
    pub available: bool,
    pub backend: String,
}

} // verus!
