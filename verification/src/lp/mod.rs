pub mod suggestor;
