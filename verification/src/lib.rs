//! Rotation of an access-key pair kept in an INI-style credential file.
//!
//! The library parses and serialises the credential file, resolves the
//! file's path, and drives the rotation workflow as a state machine whose
//! remote effects (key creation and deletion) are performed by the caller.

pub mod codec;
pub mod errors;
pub mod paths;
pub mod rotate;
pub mod store;
