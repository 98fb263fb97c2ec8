//! Succinct-indexing core: a select index over binary sequences (`DArray`)
//! and a rank/select index over quaternary sequences (`RSSupportPlain`).

pub mod positions;
pub mod words;
pub mod bitvector;
pub mod shims;
pub mod darray;
pub mod qvector;
pub mod rs_support_plain;
pub mod perf_and_test_utils;

