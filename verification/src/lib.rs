pub mod chunker;
pub mod order;
pub mod store;
pub mod tags;
pub mod query;
pub mod parser;
pub mod indexer;
pub mod db;
