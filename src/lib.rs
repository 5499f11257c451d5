//! Compacted taxonomy trees for a k-mer classifier: loading the standard
//! nodes/names dumps, pruning them to a marked set of lineages, a fixed-width
//! binary encoding, and ancestor / lowest-common-ancestor queries.
use vstd::prelude::*;

pub mod args;
pub mod bytes;
pub mod codec;
pub mod error;
pub mod ncbi;
pub mod parse;
pub mod seq;
pub mod taxonomy;

pub use args::{Args, Build, KLMTArgs, Taxo};
pub use error::TaxonomyError;
pub use ncbi::NCBITaxonomy;
pub use parse::{parse_names_file, parse_nodes_file};
pub use seq::{BaseType, OptionPair, SeqFormat, SeqHeader};
pub use taxonomy::{Taxonomy, TaxonomyNode};

verus! {

} // verus!
