pub mod registry;
pub mod resolve;
pub mod store;
pub mod table;
