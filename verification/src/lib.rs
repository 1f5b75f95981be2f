//! A writer and reader for the Java object serialization stream format.
pub mod java;
