//! Streaming reconstruction of vehicle-registry records from XML parse
//! events, their projection into JSON, batching, and the flatten / pivot
//! reshaping used for tabular consumers.
pub mod batch;
pub mod builder;
pub mod json;
pub mod order;
pub mod record;
pub mod schema;
pub mod transform;
