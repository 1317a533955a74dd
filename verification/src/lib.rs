pub mod codec;
pub mod ingest;
pub mod laws;
pub mod store;
pub mod types;
