pub mod report;
pub mod removal;
pub mod identity;
pub mod cancellation;
pub mod rotation;
pub mod commutation;
pub mod decompose;
pub mod fusion;
pub mod manager;
