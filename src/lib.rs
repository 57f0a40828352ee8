pub mod auth;
pub mod date;
pub mod fields;
pub mod files;
pub mod form;
pub mod laws;
pub mod merge;
pub mod order;
pub mod round_trip;
pub mod table;
pub mod text;
pub mod token;
pub mod writer;
