//! Host-side logic of the rcard tooling: parsing of what the device prints,
//! capability bookkeeping for adapters, the Renode monitor protocol, memory
//! map layout and build-progress state.

#![allow(unused_imports)]

pub mod text;
pub mod ids;
pub mod hex;
pub mod capability;
pub mod handle;
pub mod state;
pub mod port_registry;
pub mod monitor;
pub mod memmap;
pub mod sizes;
pub mod pipeline;
pub mod devices;
pub mod bridge;
pub mod frontend;
pub mod sinks;
pub mod ipc;
pub mod stacktrace;
pub mod logfmt;
pub mod provision;
pub mod measure;
pub mod emulator;
pub mod archive;
pub mod stub;
pub mod discovery;
pub mod display;
pub mod memmap_render;
pub mod drag;
pub mod physical;
