//! Guard-partition analysis for protocols of guarded rules over boolean memory
//! cells: mutex detection, enumeration of mutex-free rule subsets, cluster
//! building, redundancy elimination, exclusion synthesis and a completeness check.

pub mod pred;
pub mod rules;
pub mod subsets;
pub mod cluster;
pub mod fusion;
pub mod exclusion;
pub mod coverage;
pub mod pipeline;
pub mod laws;
