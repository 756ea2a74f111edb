//! Core of a small message and file sharing service: a byte-exact
//! multipart/form-data decoder and an append-only message log.

pub mod bytes;
pub mod clock;
pub mod form;
pub mod media;
pub mod message;
pub mod multipart;
pub mod plain;
pub mod query;
pub mod routes;
pub mod store;
pub mod text;
pub mod upload;
