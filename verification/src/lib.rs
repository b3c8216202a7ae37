//! Statistical schema inference over streams of semi-structured documents.
//!
//! For every field path observed in a stream of documents the library tracks
//! which value type appeared first, how often the field was seen, the scalar
//! values it carried, and — once accumulation is finalised — the field's
//! probability relative to its parent container, the number of distinct
//! values, and whether any value repeated.  Nested documents recursively
//! produce sub-schemas; arrays contribute their scalar elements to the same
//! per-field value pool.

pub mod value;
pub mod record;
pub mod schema;
pub mod laws;

pub use record::FieldType;
pub use record::Probability;
pub use record::TypeMismatch;
pub use schema::SchemaParser;
pub use value::Bson;
pub use value::Document;
pub use value::ValueType;
