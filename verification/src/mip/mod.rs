pub mod problem;
pub mod suggestor;
