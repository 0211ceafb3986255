pub mod text;
pub mod log_level;
pub mod datetime;
pub mod errors;
pub mod parser;
pub mod tally;
pub mod statistics;
pub mod analyzer;
pub mod report;
