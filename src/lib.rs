pub mod date;
pub mod entry;
pub mod hour_log;
pub mod hours;
pub mod ledger;
pub mod localization;
pub mod parse;
pub mod partial_date;
pub mod text;
pub mod tree;
