//! Verified core of LaplacianOS: the journaled graph runtime, the bounded
//! trainer scheduler, kernel graph primitives, retrieval engines and the
//! platform-description parsers, each specified over a mathematical model.

pub mod search;
pub mod graph_runtime;
pub mod bytes;
pub mod trainer_core;
pub mod trainerd;
pub mod kinds;
pub mod temporal;
pub mod typed_operator;
pub mod walk;
pub mod spectral;
pub mod walsh_math;
pub mod bm25;
pub mod pagerank;
pub mod fdt;
pub mod pipeline;
pub mod paging;
pub mod keyboard;
pub mod block;
pub mod context;
pub mod timer;
pub mod pci;
pub mod pointer;
pub mod virtio;
pub mod usb_hid;
pub mod volume;
pub mod artifacts;
pub mod message;
pub mod telemetry;
pub mod graph_service;
pub mod trainer_service;
pub mod identity_map;
pub mod virtqueue;
pub mod exceptions;
