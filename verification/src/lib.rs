//! Verified core of the evolution simulator, a laboratory that evolves
//! walking creatures: body plans and their repair, structural mutation and
//! crossover, the quality-diversity archive's indices and rules, the
//! decisions of each breeding batch, the deterministic random streams, the
//! grouping of creatures for the evaluation engines, the steps of a run
//! without a window, and the settings and bookkeeping of an experiment.
//! Physics, floating-point genes, devices and files stay with the caller.
pub mod archive;
pub mod breeding;
pub mod config;
pub mod cpu_engine;
pub mod creature_kernel;
pub mod evolution;
pub mod graph;
pub mod headless;
pub mod legacy;
pub mod lineage;
pub mod mutation;
pub mod physics;
pub mod population;
pub mod qd;
pub mod repair;
pub mod scheduler;
pub mod search_benchmark;
pub mod simd;
pub mod storage;
pub mod text;
