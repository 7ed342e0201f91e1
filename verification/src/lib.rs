//! An in-memory columnar store: named tables of typed columns, an optional
//! index per column from a value to the row that last held it, and reads of a
//! row by its position.
//!
//! Every function carries a contract over the mathematical content of the
//! data (`DatabaseView` and the types it is made of), and the laws that tie
//! the operations together are proved in `laws`.

pub mod column;
pub mod database;
pub mod error;
pub mod index;
pub mod laws;
pub mod number;
pub mod table;
pub mod text;
pub mod text_index;
pub mod value;

pub use crate::column::{Column, ColumnData};
pub use crate::database::Database;
pub use crate::error::Error;
pub use crate::index::Index;
pub use crate::table::Table;
pub use crate::text_index::TextIndex;
pub use crate::value::{DataType, ResultDT};
