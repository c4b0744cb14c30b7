pub mod qubit;
pub mod gate;
pub mod circuit;
pub mod dag;
pub mod angle;
pub mod text;
pub mod passes;
pub mod routing;
pub mod parser;
pub mod pipeline;
