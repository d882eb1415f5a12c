pub mod db;
pub mod matcher;
pub mod order;
pub mod query;
pub mod sort;
pub mod ticket;
