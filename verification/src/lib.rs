//! Line transformations for log files.
//!
//! Six commands work on a list of lines: [`sort`], [`head`], [`skip`],
//! [`tail`], [`uniq`] and [`wc`]. Each is a function from the lines and its
//! options to the lines, or the text, that it gives; [`run`] picks the
//! command and renders what it gives for the output.
//!
//! A line is a `String` without its line end. Contracts speak of a line by
//! its characters, a `Seq<char>`, and of a list of lines by its deep view, a
//! `Seq<Seq<char>>`. Lines are ordered ordinally, character by character
//! (see [`text`]); no locale is involved.

pub mod ascending;
pub mod command;
pub mod count;
pub mod error;
pub mod fields;
pub mod laws;
pub mod output;
mod ranking;
pub mod sort;
pub mod text;
pub mod uniq;
pub mod window;

pub use crate::command::{input_limit, run, Command, Options};
pub use crate::count::{wc, WcData};
pub use crate::error::InvalidInput;
pub use crate::fields::{sort_key, word_count};
pub use crate::output::pass_to_stdout;
pub use crate::sort::{sort, sort_btree, sort_heap, Order};
pub use crate::uniq::uniq;
pub use crate::window::{head, skip, tail, Window};
