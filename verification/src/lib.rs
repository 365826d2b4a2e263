//! Marshalling layer for a schemaless key-value item store.
//!
//! Typed records are converted to and from the store's wire attribute
//! format, partial-key predicates are translated into condition
//! expressions, and single or batched write requests are assembled as
//! plain request plans that a thin network layer can execute.

pub mod codec;
pub mod convert;
pub mod dynamodb;
pub mod errors;
pub mod numbers;
pub mod query;
pub mod records;
pub mod sqs;
pub mod text;
pub mod values;

pub use errors::AwwsyError;
