//! A verified extractor for a small subset of GFF3 genome annotation files:
//! the declared format version, the sequence regions, and the gene feature
//! lines whose source is `ensembl_havana`.

pub mod annotation;
pub mod extract;
pub mod attrs;
pub mod numbers;
pub mod text;
