//! What holds of the library as a whole, stated over the models that the
//! contracts of its functions use.

pub mod blanks;
pub mod brackets;
pub mod capitals;
pub mod case;
pub mod compound;
pub mod cuts;
pub mod forms;
pub mod headers;
pub mod keywords;
pub mod literals;
pub mod models;
pub mod positions;
pub mod quoting;
pub mod rows;
pub mod splitting;
pub mod tree;
pub mod typed;
pub mod values;
