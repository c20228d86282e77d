//! Batch file renaming: name transformation, collision-free rename planning,
//! and the bookkeeping needed to execute and undo a batch.
pub mod numbering;
pub mod text;
pub mod names;
pub mod unique;
pub mod plan;
pub mod undo;
