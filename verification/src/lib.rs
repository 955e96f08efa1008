//! A local bookmark store: a SQLite-backed engine that persists URLs with
//! optional names, descriptions, categories and many-to-many tag
//! associations, and answers filtered listing queries.

pub mod date;
pub mod db;
pub mod err;
pub mod store;

pub use err::BMarkError;
pub use store::is_setup_done;
pub use store::BMark;
pub use store::BMarkTask;
pub use store::Bookmark;
pub use store::ListColumn;
pub use store::OutputType;
pub use store::TagMode;

pub use date::get_current_datetime;
pub use date::get_datetime_for_epochs;
pub use date::is_leap_year;
pub use date::Datetime;
