//! A simulator of GPU clusters.
//!
//! Traced processes report the CUDA and NCCL calls and the PyTorch operators that they
//! run. The library decides what becomes of them: the events of each stream, the transfers
//! between machines, the clocks of the processes and the answers to their threads
//! ([`simulator`]). The times of kernels are measured, or replayed from a database
//! ([`perf_db`], [`recording`]). The event graph is run, and kernels are measured, outside.

pub mod args;
pub mod cuda_call;
pub mod cuda_estimate;
pub mod duration;
pub mod event_queue;
pub mod hash_laws;
pub mod json;
pub mod kernel;
pub mod lines;
pub mod measure_laws;
pub mod message;
pub mod name_laws;
pub mod nccl_id;
pub mod perf_db;
pub mod recording;
pub mod simulator;
pub mod sort;
pub mod table;
pub mod tensor_cache;
pub mod text;
pub mod text_laws;
pub mod torch_call;
pub mod torch_estimate;
pub mod torch_op;
pub mod wire;
