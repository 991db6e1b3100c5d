//! What holds of the library as a whole.
pub mod adapters;
pub mod boxes;
pub mod building;
pub mod canonical;
pub mod edits;
pub mod histories;
pub mod indexing;
pub mod leaves;
pub mod merging;
pub mod normal;
pub mod parts;
pub mod queries;
pub mod resolution;
pub mod room;
pub mod sampling;
pub mod storage;
pub mod text;
pub mod values;
pub mod volume;
