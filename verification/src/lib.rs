//! Read, transform and write SVG path data: the structure of path data,
//! its commands, subpaths and text, with every operation proved against
//! its contract.
pub mod command;
pub mod write;
pub mod read;
pub mod subpaths;
pub mod context;
pub mod normal;
pub mod reverse;
pub mod runs;
pub mod fill;
pub mod stroke;
pub mod boolean;
pub mod text;
pub mod orient;
pub mod optimize;
pub mod transform;
pub mod join;
