//! The core of a packet-capture analysis engine: the boundary through which decoder,
//! reader and writer plugins are called, the frame store with its incremental filters,
//! the stages that number, decode and order frames, and the export file format.

pub mod attr;
pub mod context;
pub mod decoder;
pub mod export;
pub mod file;
pub mod layer;
pub mod reader;
pub mod store;
pub mod writer;
