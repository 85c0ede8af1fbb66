//! A lightweight SCPI (Standard Commands for Programmable Instruments) command
//! parser.
//!
//! Pattern syntax, as used in the table passed to [`CommandSet::from_table`]:
//!
//! - Keywords use mixed case: upper case is required, lower case is optional.
//!   `SYSTem` matches `SYST`, `SYSTE` and `SYSTEM`, in any case.
//! - `:` separates hierarchical keywords.
//! - `#` in a keyword means a numeric suffix, which is 1 when it is absent:
//!   `SOURce#` matches `SOUR`, `SOUR2`, `SOURC2` and `SOURCE2`.
//! - `[...]` encloses an optional keyword node, with its leading colon when it is
//!   written as `[:NODE]`. Optional nodes are not nested.
//! - `?` at the end marks a query.
//! - After the keywords, a token behind a space declares the type of the
//!   parameter: `num`, `bool` or `str`.
//!
//! A line may hold several commands separated by `;`. A command continues from
//! the position in the command tree that the one before it left, if it is found
//! there, and is looked up at the root otherwise; a leading `:` resets to the
//! root. Common commands, such as `*RST`, have no place in the tree.

pub mod command;
pub mod error;
pub mod laws;
pub mod line;
pub mod matching;
pub mod number;
pub mod param;
pub mod pattern;
pub mod text;

pub use command::{Command, CommandSet, Handler};
pub use error::ParseError;
pub use line::{split_commands, tokenise_command};
pub use matching::{extract_suffix, keyword_matches, match_segments};
pub use param::{parse_param, strip_unit_suffix, Number, Param};
pub use pattern::{
    compile, is_well_bracketed, parse_keyword_segments, short_long, ParamKind, Segment,
};
