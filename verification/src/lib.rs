pub mod api;
pub mod codec;
pub mod config;
pub mod errors;
pub mod flatmap;
pub mod flatten;
pub mod laws;
pub mod merge;
pub mod roundtrip;
pub mod service;
pub mod strutil;
pub mod translation;
pub mod tree;
