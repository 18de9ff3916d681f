//! Scanner for player-submitted game assets: decodes the asset container (a
//! binary or a text encoding of an instance tree), extracts the embedded
//! scripts, and reports calls to forbidden globals with their positions.
//! Around the scanner stand the request checks and bodies of the service.

pub mod assemble;
pub mod binary;
pub mod container;
pub mod extract;
pub mod io_queue;
pub mod position;
pub mod report;
pub mod rules;
pub mod schema;
pub mod tree;
pub mod xml;
pub mod xml_tree;
