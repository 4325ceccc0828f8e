//! Verified core of a multi-party oblivious lookup argument.
pub mod field;
pub mod types;
pub mod utils;
pub mod lookup_verifier;
pub mod net;
pub mod bit_ops;
pub mod adder;
pub mod share;
pub mod mpc_field;
pub mod mpc_batch;
pub mod bits;
pub mod compare;
pub mod compare_run;
pub mod decompose_run;
pub mod edabits;
pub mod sorting;
pub mod network_order;
pub mod poly;
pub mod poly_ops;
pub mod series;
pub mod permutation;
pub mod routing;
pub mod claiming;
pub mod placement;
pub mod prover;
pub mod prover_polys;
pub mod telescope;
pub mod fermat;
pub mod vanishing;
pub mod honest;
pub mod completeness;
pub mod client;
