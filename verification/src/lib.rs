//! A decentralized-identity core: DID documents with verification methods and
//! services, JWT-based verifiable credentials and presentations, a multi-stage
//! validation pipeline, and a bitmap-based revocation registry.

pub mod b64;
pub mod bitmap;
pub mod bytes;
pub mod credential;
pub mod crypto;
pub mod document;
pub mod errors;
pub mod json;
pub mod jwt;
pub mod presentation;
pub mod resolver;
pub mod storage;
pub mod validator;
