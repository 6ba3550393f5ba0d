//! Verified core of an ONNX inference runtime.

pub mod batchnorm;
pub mod bench;
pub mod builder;
pub mod calibration;
pub mod clock;
pub mod error;
pub mod fusion;
pub mod generators;
pub mod graph;
pub mod harness;
pub mod ieee;
pub mod inspect;
pub mod int8;
pub mod kernels;
pub mod layout;
pub mod micro_graph;
pub mod model;
pub mod name_map;
pub mod ops;
pub mod postprocess;
pub mod precision;
pub mod proto;
pub mod qdq;
pub mod quantize;
pub mod relayout;
pub mod runtime;
pub mod sample;
pub mod scales;
pub mod tensor;
pub mod text;
pub mod vulkan;
