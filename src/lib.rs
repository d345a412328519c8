pub mod error;
pub mod memory;
pub mod note;
pub mod options;
pub mod project;
pub mod query;
pub mod store;
pub mod text;
pub mod timestamp;
