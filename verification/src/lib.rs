//! PARANOCRYPT: a stream encryption mode whose traffic keys are derived
//! from a master key through a key hardener built on a custom keyed
//! Feistel transform.

pub mod cipher;
pub mod parano;
