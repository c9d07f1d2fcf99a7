//! A queryable model of a machine's CPU, cache and NUMA topology, built from
//! the text that `lscpu --parse=NODE,SOCKET,CORE,CPU,CACHE` and
//! `numactl --hardware` print.

// `nom` marks its byte predicates `is_digit` and `is_space` as deprecated in
// favour of a trait; they are called here as the plain functions they are.
#![allow(deprecated)]

pub mod cache;
pub mod cpu;
pub mod decimal;
pub mod error;
pub mod groups;
pub mod keys;
pub mod numa;
pub mod table;
pub mod text;
pub mod topology;
pub mod uncore;
