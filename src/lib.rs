pub mod text;
pub mod nick;
pub mod parse;
pub mod chain;
pub mod counts;
pub mod aggregate;
pub mod report;
