pub mod topology;
pub mod allocator;
pub mod sabre;
pub mod report;
