//! Gemma-4 E2B inference: the verified logic of the engine.
//!
//! The model graph ([`model::Gemma4Model`]) runs on any [`backend::Backend`];
//! [`backend_cpu::CpuBackend`] is the reference one.
pub mod backend;
pub mod backend_cpu;
pub mod bench;
pub mod chat;
pub mod config;
pub mod dequant;
pub mod device;
pub mod dispatch;
pub mod draws;
pub mod engine;
pub mod float;
pub mod frame;
pub mod graph;
pub mod hub;
pub mod json;
pub mod kvcache;
pub mod model;
pub mod safetensors;
pub mod rows;
pub mod run;
pub mod sampler;
pub mod stepwise;
pub mod template;
pub mod text;
pub mod tokenizer;
pub mod weights;

pub use backend::{AttnOpts, Backend, QuantWeight, TensorShape};
pub use backend_cpu::CpuBackend;
pub use config::Gemma4Config;
pub use engine::{Gemma4Mobile, GenerateOpts, LoadStage, Step};
pub use model::Gemma4Model;
pub use template::Message;
pub use tokenizer::Tokenizer;
