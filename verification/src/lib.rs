//! # leafdb
//!
//! The storage and SQL engine of a lightweight, browser-first relational
//! database. The engine operates purely on a page-based [`storage::Storage`]
//! abstraction; persistence is achieved by exporting the raw page image.

pub mod bytes;
pub mod catalog;
pub mod database;
pub mod error;
pub mod executor;
pub mod heap;
pub mod page;
pub mod record;
pub mod sql;
pub mod storage;
pub mod strings;
pub mod value;

pub use database::Database;
pub use error::{Error, Result};
pub use executor::ExecResult;
pub use storage::{MemoryStorage, Storage, PAGE_SIZE};
pub use value::{DataType, Value};
