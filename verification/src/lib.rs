//! Metadata of American Community Survey tables: grouping of the survey's
//! variables into tables, ordering of tables and columns, and the text that
//! the explorer prints and sends to the database.

pub mod text;
pub mod order;
pub mod cli;
pub mod sort;
pub mod explore;
pub mod load;
