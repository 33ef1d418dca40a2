//! Core logic of the Hyverk network.
pub mod chain_laws;
pub mod chatml;
pub mod cli;
pub mod cluster_laws;
pub mod codec;
pub mod comms;
pub mod config;
pub mod coordinator;
pub mod dataset_store;
pub mod frames;
pub mod http_api;
pub(crate) mod ids;
pub mod infer_server;
pub mod json;
pub mod layer_training;
pub mod layers;
pub mod messages;
pub mod metrics;
pub mod model_paths;
pub mod node;
pub mod node_stats;
pub mod offsets;
pub mod rag;
pub mod registry;
pub mod router;
pub mod sandbox;
pub mod seqs;
pub mod serving_clusters;
pub mod synthesis;
pub mod table;
pub mod task_laws;
pub mod task_store;
pub mod text;
pub mod training;
pub mod training_store;
pub mod ws_handler;
