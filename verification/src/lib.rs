//! The decision core of Bulbasaur, a branch-guided coverage fuzzer.
//!
//! Everything the fuzzer decides or computes lives here and is verified: how
//! coverage maps are read and merged, which seeds are favoured and picked,
//! how inputs are mutated, how dictionaries and section tables are parsed, and
//! how the replies of a target or of the agent bridge are understood.
//! Processes, files, sockets and threads are driven from outside.

pub mod binary32;
pub mod binary64;
pub mod bind_cpu;
pub mod branches;
pub mod bytes;
pub mod chart;
pub mod check_dep;
pub mod chunks;
pub mod command;
pub mod config;
pub mod defs;
pub mod depot;
pub mod dictionary;
pub mod executor;
pub mod extras;
pub mod fuzz_main;
pub mod fuzz_type;
pub mod hash;
pub mod llm_loop;
pub mod loading;
pub mod mutate_func;
pub mod parse_raw_section;
pub mod rng;
pub mod search;
pub mod stats;
pub mod status;
pub mod text;
pub mod trace_data;
pub mod utils;
pub mod wait_status;
