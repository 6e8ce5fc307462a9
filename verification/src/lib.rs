//! Putki: a generic data system. Objects are authored as text, indexed and
//! resolved by path, built by a pipeline, and written into binary packages
//! that the runtime loads back.
//!
//! This crate holds the text lexer and string escaping, the object index and
//! pointers, the localization mangling and catalog writer, the build queue
//! and package writer, and the package reader.

pub mod strings;
pub mod escape;
pub mod lexed;
pub mod lexer;
pub mod loc;
pub mod po;
pub mod shared;
pub mod manifest;
pub mod source;
pub mod loadall;
pub mod ptr;
pub mod binreader;
pub mod outki;
pub mod writer;
pub mod pipeline;
pub mod runtime;
pub mod readback;

use vstd::prelude::*;

verus! {

/// Marks the text side: data read and parsed at run time.
pub trait Mixki {

}

/// Marks the build side: source objects built into packages.
pub trait Inki {

}

/// Marks the package side: objects loaded from packages.
pub trait Outki {

}

} // verus!
