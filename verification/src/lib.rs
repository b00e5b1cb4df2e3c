//! Cell resampling support library: the record grammars of event files
//! (HepMC2, Les Houches), weight updates and their read-back, splitting a
//! stream into records, partitioning a sample by bisection, the cells of
//! interest kept while resampling, event-multiplicity summaries, particle
//! classes of the clustering, and command-line option parsing.
//!
//! Every function here is checked by Verus against its contract. The few
//! calls into other crates (`regex`, `particle_id`, `rand`) and into parts
//! of `std` that Verus has no specification for go through small trusted
//! wrappers, each of whose doc comments says what its contract claims.

pub mod text;
pub mod number;
pub mod make_partition;
pub mod io;
pub mod hepmc2;
pub mod lhef;
pub mod compression;
pub mod formats;
pub mod opt_common;
pub mod opt;
pub mod opt_cres;
pub mod cluster;
pub mod opt_particle_def;
pub mod opt_cres_validate;
pub mod split;
pub mod classify;
pub mod ntuple;
pub mod bisect;
pub mod hepmc;
pub mod auto_decompress;
pub mod cell_collector;
pub mod counting;
pub mod cres;
