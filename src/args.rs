//! Settings of the build and classify commands, as plain data. The
//! command-line front end fills them in.
use std::path::PathBuf;
use vstd::prelude::*;

verus! {

/// Lets file paths stand in the settings; nothing is read out of them here.
#[verifier::external_type_specification]
#[verifier::external_body]
pub struct ExPathBuf(PathBuf);

/// Settings of the database build.
#[derive(Debug)]
pub struct Build {
    /// Directory of the reference library.
    pub database: PathBuf,
    /// k-mer and minimizer settings.
    pub klmt: KLMTArgs,
    /// Bits requested for taxon ids, below 31.
    pub requested_bits_for_taxid: u8,
    /// Number of worker threads.
    pub threads: usize,
}

/// Settings of the taxonomy step.
#[derive(Debug)]
pub struct Taxo {
    /// The sequence-id-to-taxon-id map file.
    pub id_to_taxon_map_filename: Option<PathBuf>,
    /// Directory of the taxonomy dumps.
    pub ncbi_taxonomy_directory: Option<PathBuf>,
}

/// k-mer and minimizer settings.
#[derive(Debug, Clone, Copy)]
pub struct KLMTArgs {
    /// Length of k-mers; at least 1 and not below the minimizer length.
    pub k_mer: u64,
    /// Length of minimizers, 1 to 31.
    pub l_mer: u8,
    /// Characters of a minimizer left out of comparisons.
    pub minimizer_spaces: u8,
    /// Minimizer ordering toggle mask.
    pub toggle_mask: u64,
    /// Smallest hash value kept, when set.
    pub min_clear_hash_value: Option<u64>,
}

/// Settings of the sequence-id-to-taxon-id map step.
#[derive(Debug)]
pub struct Args {
    /// The database directory.
    pub database: PathBuf,
    /// The map file; by default in the database directory.
    pub id_to_taxon_map_filename: Option<PathBuf>,
}

} // verus!
