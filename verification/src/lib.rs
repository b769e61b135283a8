//! hackbot: an in-kernel agent's computational core and the trace-replay
//! world model behind its visualization server, with contracts proved by Verus.

use vstd::prelude::*;

pub mod context;
pub mod device;
pub mod forward;
pub mod gateway;
pub mod generate;
pub mod local_agent;
pub mod math;
pub mod memory;
pub mod model;
pub mod replayer;
pub mod net;
pub mod tokenizer;
pub mod tools;
pub mod trace_loader;
pub mod trace_types;
pub mod vllm;
pub mod world_model;
