//! The run-time side of the text data: pointers that resolve through a
//! source, and the interfaces generated code implements to parse objects
//! straight out of lexed data, without a build.

use vstd::prelude::*;
use std::rc::Rc;
use crate::lexed::{LexedData, LexedKv};
use crate::shared::Resolver;
use crate::source::ResolveStatus;
use crate::strings::chars_of;

verus! {

/// Sets the runtime up. There is nothing to set up.
pub fn putki_init() {
}

/// Records the paths that resolving follows.
pub trait Tracker {
    fn follow(&self, path: &str);
}

/// An object that can be resolved by path from a source of type
/// `ObjSource`.
pub trait ResolveFrom<ObjSource>: Sized {
    fn resolve(src: &ObjSource, path: &str) -> Option<Rc<Self>>;
}

/// What a pointer resolves through: a tracker to report followed paths to,
/// and the source.
pub struct PtrContext<T, S> {
    pub tracker: Option<Rc<T>>,
    pub source: Rc<S>,
}

enum PtrStatus<T> {
    Unresolved,
    Resolved(Rc<T>),
}

/// Whether `r` is what `T`'s own `resolve` gave for `path` from `src`.
pub open spec fn source_gives<S, T: ResolveFrom<S>>(src: S, path: Seq<char>, r: Option<Rc<T>>) -> bool {
    exists|ps: &str| ps@ == path && #[trigger] call_ensures(T::resolve, (&src, ps), r)
}

/// A pointer by path that keeps its target once it has been resolved.
pub struct Ptr<K, S, T> {
    context: PtrContext<K, S>,
    status: PtrStatus<T>,
    path: String,
}

impl<K: Tracker, S, T: ResolveFrom<S>> Ptr<K, S, T> {
    /// The target kept from an earlier resolve, if any.
    pub closed spec fn cached(&self) -> Option<T> {
        match self.status {
            PtrStatus::Resolved(x) => Some(*x),
            _ => None,
        }
    }

    /// The path the pointer names.
    pub closed spec fn path_of(&self) -> Seq<char> {
        self.path@
    }

    /// The source the pointer resolves from.
    pub closed spec fn source_of(&self) -> S {
        *self.context.source
    }

    /// A pointer to `path`, not resolved yet.
    pub fn new(context: PtrContext<K, S>, path: &str) -> (r: Self)
        ensures
            r.cached() is None,
            r.path_of() == path@,
            r.source_of() == *context.source,
    {
        Ptr { context, status: PtrStatus::Unresolved, path: path.to_owned() }
    }

    /// The target: reports the path to the tracker, then gives the target
    /// kept from an earlier resolve, or resolves it from the source and
    /// keeps it. The source must have a target for a pointer that was
    /// never resolved.
    pub fn resolve(&mut self) -> (r: Option<Rc<T>>)
        requires
            old(self).cached() is None ==> forall|ps: &str, res: Option<Rc<T>>|
                ps@ == old(self).path_of() && #[trigger] call_ensures(T::resolve, (&old(self).source_of(), ps), res)
                    ==> res is Some,
        ensures
            final(self).path_of() == old(self).path_of(),
            final(self).source_of() == old(self).source_of(),
            r is Some,
            old(self).cached() matches Some(x) ==> r matches Some(y) && *y == x,
            old(self).cached() is None ==> source_gives(old(self).source_of(), old(self).path_of(), r),
            r matches Some(y) ==> final(self).cached() == Some(*y),
    {
        match &self.context.tracker {
            Some(trk) => trk.follow(self.path.as_str()),
            None => {},
        }
        match &self.status {
            PtrStatus::Resolved(x) => {
                return Some(x.clone());
            },
            _ => {},
        }
        let ps = self.path.as_str();
        let res: Option<Rc<T>> = T::resolve(&*self.context.source, ps);
        assert(source_gives(*self.context.source, self.path@, res));
        match res {
            Some(x) => {
                self.status = PtrStatus::Resolved(x.clone());
                Some(x)
            },
            None => {
                proof {
                    assert(call_ensures(T::resolve, (&*self.context.source, ps), res));
                    assert(*self == *old(self));
                    assert(old(self).cached() is None);
                    assert(ps@ == old(self).path_of());
                    assert(*self.context.source == old(self).source_of());
                }
                vstd::pervasive::unreached()
            },
        }
    }
}

/// Loads the object at `path` through `src` and converts it to `T`: null
/// for the empty path, failed when nothing loads or converts.
pub fn resolve_from<T: PutkiTypeCast, K, S: Resolver<PtrContext<K, S>>>(
    src: &Rc<S>,
    pctx: &PtrContext<K, S>,
    path: &str,
) -> (r: ResolveStatus<T>)
    ensures
        r is Null <==> path@.len() == 0,
        r matches ResolveStatus::Resolved(x) ==> exists|o: Rc<S::Object>|
            call_ensures(S::load, (&**src, pctx, path), Some(o)) && call_ensures(T::rc_convert, (o,), Some(x)),
        r is Failed ==> call_ensures(S::load, (&**src, pctx, path), None) || exists|o: Rc<S::Object>|
            call_ensures(S::load, (&**src, pctx, path), Some(o)) && call_ensures(T::rc_convert, (o,), None),
{
    if chars_of(path).len() == 0 {
        return ResolveStatus::Null;
    }
    let loaded = src.load(pctx, path);
    let k = match loaded {
        Some(rc) => T::rc_convert(rc),
        None => None,
    };
    match k {
        Some(r) => ResolveStatus::Resolved(r),
        None => ResolveStatus::Failed,
    }
}

/// The state of a run-time parse: the parser definition and the lexed
/// objects, by path.
pub struct ResolveContext<ParseDef> {
    pub def: ParseDef,
    pub unparsed: LexedKv,
}

/// Parses one concrete type from its fields.
pub trait ParseSpecific<ParseDef>: Sized {
    fn parse(ctx: &ResolveContext<ParseDef>, obj: &LexedKv) -> Self;

    /// Parses the object `obj` holds; anything but an object, or nothing,
    /// gives the default value.
    fn parse_or_default(ctx: &ResolveContext<ParseDef>, obj: Option<&LexedData>) -> (r: Self) where Self: Default
        default_ensures
            match obj {
                Some(LexedData::Object { kv, .. }) => call_ensures(Self::parse, (ctx, kv), r),
                _ => call_ensures(Self::default, (), r),
            },
    {
        match obj {
            Some(LexedData::Object { kv, .. }) => Self::parse(ctx, kv),
            _ => Self::default(),
        }
    }
}

/// Parses a root type from the fields of one of its subtypes.
pub trait ParseToRoot<ParseDef, Sub: ParseSpecific<ParseDef>>: Sized {
    fn parse(ctx: &ResolveContext<ParseDef>, obj: &LexedKv) -> Self;
}

/// Parses a root type from its own fields.
pub trait ParseToPure<ParseDef>: Sized {
    fn parse(ctx: &ResolveContext<ParseDef>, obj: &LexedKv) -> Self;
}

/// Parses an object of any type, picked by its type tag.
pub trait ParseGeneric<ParseDef> {
    /// What parsed objects are handed out as.
    type Object;

    fn parse(ctx: &ResolveContext<ParseDef>, type_tag: &str, obj: &LexedKv) -> Option<Rc<Self::Object>>;
}

/// The concrete child a value of a root type holds.
pub trait Rtti<EnumType> {
    fn get_child(&self) -> EnumType;
}

/// Converting a loaded object to a concrete type.
pub trait PutkiTypeCast: Sized {
    /// The object as this type; by default no object converts.
    fn rc_convert<S>(src: Rc<S>) -> (r: Option<Rc<Self>>)
        default_ensures
            r is None,
    {
        None
    }
}

} // verus!
