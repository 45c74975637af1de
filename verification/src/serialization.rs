//! Persistence of a training session: the byte format for replay
//! contents, chunking and naming, compression, and the session document.

pub mod codec;
pub mod compress;
pub mod deserializer;
pub mod serializer;
pub mod training_config;
