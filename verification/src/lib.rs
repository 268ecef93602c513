//! Core logic of a local inference-server manager: resumable downloads with
//! cooperative cancellation, supervision of the single server subprocess,
//! decoding of streamed completions, and a chunk/embed/rank retrieval
//! pipeline over fixed-point embeddings.

pub mod chat;
pub mod chunker;
pub mod crawler;
pub mod download;
pub mod numfmt;
pub mod rag;
pub mod rank;
pub mod sse;
pub mod supervisor;
pub mod textutil;
