//! Runtime reflection for protobuf descriptors and dynamic messages.
#![allow(unused_imports)]

use vstd::prelude::*;

pub mod access;
pub mod builder;
pub mod case;
pub mod codec;
pub mod decode;
pub mod defaults;
pub mod derive_attrs;
pub mod descriptor;
pub mod error;
pub mod escaping;
pub mod handles;
pub mod json;
pub mod json_roundtrip;
pub mod laws;
pub mod literal;
pub mod message;
pub mod options;
pub mod pool;
pub mod pool_build;
pub mod reflect;
pub mod roundtrip;
pub mod text;
pub mod textfmt;
pub mod textlex;
pub mod textparse;
pub mod value;
pub mod wire;

verus! {

} // verus!
