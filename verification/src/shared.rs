//! Data types shared between the package reader (outki) and the pipeline.

use vstd::prelude::*;
use std::rc::Rc;

verus! {

/// Errors of the build pipeline.
///
/// A builder's failure is carried as its message, and an I/O failure as the
/// kind of failure it was, both as plain values.
#[derive(Debug)]
pub enum PutkiError {
    Test,
    BuilderError(String),
    IOError(String),
    ObjectNotFound,
}

/// Static description of a data type: the tag it is written under in text
/// data, and the id the compiler assigned it.
pub trait TypeDescriptor {
    /// The type's name, as text data and the type table write it.
    const TAG: &'static str;

    /// Compiler-assigned type id, written into package slots so a reader
    /// can check it is being handed the type it asked for.
    ///
    /// 0 means "unknown", which is what a hand-written or not-yet-regenerated
    /// descriptor reports; readers skip the check rather than reject those.
    const TYPE_ID: usize = 0;
}

/// Loads objects by path for a resolve context. `Object` is the type the
/// loaded objects are handed out as.
pub trait Resolver<ResolveContext> {
    type Object;

    fn load(&self, pctx: &ResolveContext, path: &str) -> Option<Rc<Self::Object>>;
}

/// The tag of `T`.
pub fn tag_of<T: TypeDescriptor>() -> (r: &'static str)
    ensures
        r == T::TAG,
{
    T::TAG
}

} // verus!
