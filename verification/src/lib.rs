//! Forward error correction codes with machine-checked contracts.

pub mod affinity;
pub mod bch;
pub mod bch_laws;
pub mod berlekamp;
pub mod bits;
pub mod bluetooth;
pub mod capi;
pub mod ccsds_rs;
pub mod channel_sim;
pub mod crc;
pub mod cyclic;
pub mod error;
pub mod forney;
pub mod gf256;
pub mod gfpoly;
pub mod golay;
pub mod hamming;
pub mod harq;
pub mod ldpc_core;
pub mod ldpc_decoder;
pub mod ldpc_dense;
pub mod ldpc_laws;
pub mod ldpc_pipeline;
pub mod min_sum;
pub mod min_sum_laws;
pub mod montecarlo;
pub mod numbers;
pub mod polar;
pub mod polar_laws;
pub mod polar_list;
pub mod polar_list_laws;
pub mod qc_ldpc;
pub mod quantize;
pub mod reliability;
pub mod reliability_table;
pub mod rs_laws;
pub mod simulation;
pub mod slices;
pub mod soft;
pub mod viterbi;
