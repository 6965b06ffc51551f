//! What the operations are for, stated of what goes in and what comes out.
pub mod answering;
pub mod carrying;
pub mod committing;
pub mod configuring;
pub mod copying;
pub mod deleting;
pub mod explaining;
pub mod installing;
pub mod keeping;
pub mod planning;
pub mod restoring;
pub mod running;
pub mod wording;
