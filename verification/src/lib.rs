//! NomadNet node hosting and browsing logic: Micron markup building, page
//! pagination, page caches, node directory, browser link state and the
//! configuration parsing of the `nomadnet-serve` program.

pub mod assoc;
pub mod browser;
pub mod config;
pub mod directory;
pub mod laws;
pub mod listing;
pub mod micron;
pub mod node;
pub mod rns;
pub mod serve;
pub mod text;
pub mod types;
