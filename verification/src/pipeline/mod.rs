//! The ingestion pipeline.
pub mod add_episode;
pub mod bulk;
pub mod bulk_dedup;
pub mod bulk_ingest;
pub mod bulk_laws;
pub mod community_ops;
pub mod dedup_helpers;
pub mod dedup_index;
pub mod dedup_laws;
pub mod edge_laws;
pub mod edge_ops;
pub mod entropy;
pub mod extraction;
pub mod extraction_laws;
pub mod label_laws;
pub mod label_propagation;
pub mod maintenance;
pub mod node_ops;
pub mod node_resolution;
pub mod saga;
pub mod temporal;
pub mod uuid_map;
