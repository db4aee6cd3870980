//! Nearest-neighbor search over vectors quantized to one bit per dimension.
//!
//! A vector is stored as the signs of its components. For a query, the inner product
//! with a code is the sum of entries of small lookup tables, one for each nibble of
//! the code. Codes are packed so that 32 vectors are scanned together.
//!
//! * [`codes`], [`rabitq_fast_scan_kernels`], [`lanes`] and [`rabitq_scalar_scan`]
//!   hold the layout of codes and the scans; [`scan_laws`] says how they relate.
//! * [`rabitq_fast_scan`] is the index, and [`index_format`] its file format.
//! * [`classic_graph`] is a graph with bounded degrees, [`graph_format`] its file
//!   format, and [`sorting`] the order of its neighbors.
//! * [`beam_search`] is the search, [`seen_set`] and [`beam`] what it keeps.
//!   [`oracle_search`] and [`rabitq_search`] walk over a graph with the oracles of
//!   [`fast_scan_oracle`] and [`scalar_oracle`], [`classic_search`] with a
//!   [`distance_oracle`]; [`search_laws`] and [`rabitq_laws`] say what holds of
//!   searches as a whole.
//!
//! Single-precision numbers are carried as bit patterns ([`distance`]). Arithmetic on
//! them is left to the functions that an oracle is made with.

pub mod beam;
pub mod beam_search;
pub mod beam_search_oracle;
pub mod checksum;
pub mod classic_graph;
pub mod classic_search;
pub mod codes;
pub mod distance;
pub mod distance_oracle;
pub mod fast_scan_oracle;
pub mod graph_format;
pub mod index_format;
pub mod lanes;
pub mod le_bytes;
pub mod named;
pub mod oracle_search;
pub mod rabitq_fast_scan;
pub mod rabitq_fast_scan_kernels;
pub mod rabitq_laws;
pub mod rabitq_scalar_scan;
pub mod rabitq_search;
pub mod scalar_oracle;
pub mod scan_laws;
pub mod search_laws;
pub mod seen_set;
pub mod sorting;
