//! Configuration state function (CSF) records: the subshell table, the
//! fixed-column record parser, descriptor normalization and the record
//! conversion pipeline, with their contracts.

pub mod text;
pub mod subshell;
pub mod descriptor;
pub mod normalization;
pub mod conversion;
