//! Backend core of a desktop markdown editor: the launch-argument filter,
//! the one-shot queue of files to open, and path normalization for the
//! file commands.

pub mod launch_args;
pub mod open_files;
pub mod path;
