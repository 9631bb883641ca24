// A package dependency resolver: version selection reduced to linear integer
// arithmetic for an SMT engine, with each constraint mirrored in the terms of
// packages and ranges so that an unsatisfiable core reads back as
// requirements.

pub mod closure;
pub mod constraints;
pub mod decode;
pub mod display;
pub mod enumerate;
pub mod expr;
pub mod extended;
pub mod intervals;
pub mod metrics;
pub mod mirror;
pub mod smt;
pub mod solver;
pub mod types;
pub mod vec1;
