//! Variable and scope engine of an interactive shell, together with the pure
//! parts of its interactive driver: tilde expansion, working-directory
//! abbreviation, map-reference decomposition, word division for the line
//! editor, command termination and history policy.

pub mod colors;
pub mod designators;
pub mod laws;
pub mod mapref;
pub mod repl;
pub mod retrieve;
pub mod scope;
pub mod store;
pub mod text;
pub mod tilde;
pub mod value;
pub mod wd;
pub mod worddiv;
