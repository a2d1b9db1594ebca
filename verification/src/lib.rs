//! Visual regression testing: pixel comparison, region detection, reports,
//! storage keys and notification payloads.
use vstd::prelude::*;

pub mod antialias;
pub mod regions;
pub mod image;
pub mod decode;
pub mod text;
pub mod config;
pub mod report;
pub mod storage;
pub mod notify;
pub mod keygen;
pub mod pipeline;
pub mod release;
pub mod json;
pub mod cli;
pub mod bindings;

verus! {

} // verus!
