//! Verified core of the Zenith engine's asset pipeline and render-graph planner.
#![allow(unused_imports)]

pub mod error;
pub mod graph;
pub mod text;
pub mod path;
pub mod texture;
pub mod codec;
pub mod handle;
pub mod cache;
pub mod server;
pub mod dependency;
pub mod gltf;
pub mod import;
pub mod mesh;
pub mod legacy;
pub mod engine;
pub mod stream;
pub mod image;
pub mod reload;
pub mod gltf_doc;
