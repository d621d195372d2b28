//! Problem instances of TD Mk Landscapes: their model, their canonical text
//! form, and the plans by which folders of them are generated and read back.
//!
//! A landscape is made of `m` cliques of `k` binary variables each, where
//! consecutive cliques share `o` variables. What is kept of it in a problem
//! file is a [`problem::Problem`]. [`writer`] gives the text of the file,
//! [`reader`] reads it back strictly, [`format`] says what the text is and
//! means, and [`laws`] proves that the two agree.
//!
//! Nothing here touches the file system. The functions in [`command`],
//! [`generation`] and [`reconstruction`] take the names found in a folder
//! and say what is to be done with them, in which order and under which
//! names; the caller does it.

pub mod command;
pub mod decimal;
pub mod format;
pub mod generation;
pub mod laws;
pub mod listing;
pub mod parameters;
pub mod problem;
pub mod reader;
pub mod reconstruction;
pub mod score;
pub mod text;
pub mod writer;
