//! Reading objects out of the text data: the loader interface, the
//! resolver that parses loaded fields into typed objects, and writing values
//! back out as text.

use vstd::prelude::*;
use std::rc::Rc;
use std::sync::Arc;
use crate::lexed::{Lexed, LexedKv};
use crate::shared::{PutkiError, TypeDescriptor};
use crate::strings::{i32_to_string, int_decimal, push_str, string_push};
use crate::runtime::{resolve_from as resolve_in_context, PtrContext, PutkiTypeCast, Tracker};
use std::marker::PhantomData;

verus! {

/// What resolving a path gave.
pub enum ResolveStatus<T> {
    Resolved(Rc<T>),
    Failed,
    Null,
}

/// The model of an object a loader holds: its type tag and its fields.
pub type LoadedObject = (Seq<char>, Seq<(Seq<char>, Lexed)>);

/// Finds objects by path.
pub trait ObjectLoader {
    /// The object held under `path`, if any.
    spec fn lookup(&self, path: Seq<char>) -> Option<LoadedObject>;

    /// The type tag and fields of the object at `path`.
    fn load(&self, path: &str) -> (r: Option<(&str, &LexedKv)>)
        ensures
            match self.lookup(path@) {
                Some((t, kv)) => r matches Some((rt, rkv)) && rt@ == t && rkv@ == kv,
                None => r is None,
            },
    ;
}

/// Loads objects by path, handed out as `Object`.
pub trait SourceLoader {
    type Object;

    fn load(&self, path: &str) -> Option<Rc<Self::Object>>;
}

/// A pointer by path that resolves through the loader of its context each
/// time.
pub struct Ptr<K, S, Target> {
    context: PtrContext<K, S>,
    path: String,
    _m: PhantomData<Target>,
}

impl<K: Tracker, S: crate::shared::Resolver<PtrContext<K, S>>, Target: PutkiTypeCast> Ptr<K, S, Target> {
    /// The path the pointer names.
    pub closed spec fn path_of(&self) -> Seq<char> {
        self.path@
    }

    /// A pointer to `path`.
    pub fn new(context: PtrContext<K, S>, path: &str) -> (r: Self)
        ensures
            r.path_of() == path@,
    {
        Ptr { context, path: path.to_owned(), _m: PhantomData }
    }

    /// The context the pointer resolves in.
    pub closed spec fn context_of(&self) -> PtrContext<K, S> {
        self.context
    }

    /// The target: reports the path to the tracker, then loads and
    /// converts the object. The empty path leads nowhere; otherwise the
    /// target is what the loader gave for the path, converted, and there is
    /// none when the loader gave nothing or the conversion failed.
    pub fn resolve(&self) -> (r: Option<Rc<Target>>)
        ensures
            self.path_of().len() == 0 ==> r is None,
            r matches Some(x) ==> exists|ps: &str, o: Rc<S::Object>|
                ps@ == self.path_of() && call_ensures(
                    S::load,
                    (&*self.context_of().source, &self.context_of(), ps),
                    Some(o),
                ) && call_ensures(Target::rc_convert, (o,), Some(x)),
            self.path_of().len() > 0 && r is None ==> exists|ps: &str|
                ps@ == self.path_of() && (call_ensures(
                    S::load,
                    (&*self.context_of().source, &self.context_of(), ps),
                    None,
                ) || exists|o: Rc<S::Object>|
                    call_ensures(S::load, (&*self.context_of().source, &self.context_of(), ps), Some(o))
                        && call_ensures(Target::rc_convert, (o,), None)),
    {
        match &self.context.tracker {
            Some(trk) => trk.follow(self.path.as_str()),
            None => {},
        }
        let ps = self.path.as_str();
        match resolve_in_context::<Target, K, S>(&self.context.source, &self.context, ps) {
            ResolveStatus::Resolved(p) => Some(p),
            _ => None,
        }
    }
}

/// Whether `after` is `before` with text appended.
pub open spec fn extends(before: Seq<char>, after: Seq<char>) -> bool {
    after.len() >= before.len() && after.subrange(0, before.len() as int) == before
}

/// Writes a value in the text form, after what `output` holds: what is
/// already there stays.
pub trait WriteAsText {
    fn write_text(&self, output: &mut String) -> (r: Result<(), PutkiError>)
        ensures
            extends(old(output)@, final(output)@),
    ;
}

/// The text `write_field` writes before the value: a `,` when `sep` is
/// set, the name and a `:`.
pub open spec fn field_prefix(name: Seq<char>, sep: bool) -> Seq<char> {
    (if sep {
        seq![',']
    } else {
        Seq::empty()
    }) + name + seq![':']
}

/// `s` quoted.
pub open spec fn quoted_plain(s: Seq<char>) -> Seq<char> {
    seq!['"'] + s + seq!['"']
}

impl<'a> WriteAsText for &'a str {
    fn write_text(&self, output: &mut String) -> (r: Result<(), PutkiError>)
        ensures
            r is Ok,
            final(output)@ == old(output)@ + quoted_plain(self@),
    {
        string_push(output, '"');
        push_str(output, self);
        string_push(output, '"');
        assert(output@.subrange(0, old(output)@.len() as int) =~= old(output)@);
        Ok(())
    }
}

impl WriteAsText for String {
    fn write_text(&self, output: &mut String) -> (r: Result<(), PutkiError>)
        ensures
            r is Ok,
            final(output)@ == old(output)@ + quoted_plain(self@),
    {
        string_push(output, '"');
        push_str(output, self.as_str());
        string_push(output, '"');
        assert(output@.subrange(0, old(output)@.len() as int) =~= old(output)@);
        Ok(())
    }
}

impl WriteAsText for i32 {
    fn write_text(&self, output: &mut String) -> (r: Result<(), PutkiError>)
        ensures
            r is Ok,
            final(output)@ == old(output)@ + int_decimal(*self as int),
    {
        let t = i32_to_string(*self);
        push_str(output, t.as_str());
        assert(output@.subrange(0, old(output)@.len() as int) =~= old(output)@);
        Ok(())
    }
}

/// Writes one `name:value` field, after a `,` when `sep` is set.
pub trait FieldWriter<Target> {
    fn write_field(&mut self, name: &str, tgt: &Target, sep: bool) -> Result<(), PutkiError>;
}

impl<Target: WriteAsText> FieldWriter<Target> for String {
    /// The field's prefix is written first; the value then writes itself,
    /// and its result is the field's.
    fn write_field(&mut self, name: &str, tgt: &Target, sep: bool) -> (r: Result<(), PutkiError>)
        ensures
            extends(old(self)@ + field_prefix(name@, sep), final(self)@),
    {
        if sep {
            string_push(self, ',');
        }
        push_str(self, name);
        string_push(self, ':');
        assert(self@ =~= old(self)@ + field_prefix(name@, sep));
        tgt.write_text(self)
    }
}

/// Parses an object of this type from its fields, resolving its pointers
/// through loaders of type `L`.
pub trait ParseFromKV<L: ObjectLoader>: Sized + TypeDescriptor + Clone {
    fn parse(kv: &LexedKv, resolver: &Arc<InkiResolver<L>>) -> Self;

    /// Parses fields that were written under `type_tag`. A mismatched
    /// name is not an error: the fields are parsed as this type.
    fn parse_with_type(kv: &LexedKv, resolver: &Arc<InkiResolver<L>>, type_tag: &str) -> (r: Self)
        default_ensures
            call_ensures(Self::parse, (kv, resolver), r),
    {
        Self::parse(kv, resolver)
    }
}

/// Whether `x` is what `T::parse_with_type` made of the fields and the
/// type tag that the resolver's loader holds under `path`.
pub open spec fn parsed_from<T: ParseFromKV<L>, L: ObjectLoader>(resolver: &Arc<InkiResolver<L>>, path: Seq<char>, x: T) -> bool {
    exists|kv: &LexedKv, t: &str|
        kv@ == resolver.loader.lookup(path)->Some_0.1 && t@ == resolver.loader.lookup(path)->Some_0.0
            && #[trigger] call_ensures(T::parse_with_type, (kv, resolver, t), x)
}

/// Resolves paths to typed objects through a loader.
pub struct InkiResolver<L: ObjectLoader> {
    pub loader: Arc<L>,
}

impl<L: ObjectLoader> InkiResolver<L> {
    pub fn new(loader: Arc<L>) -> (r: Self)
        ensures
            r.loader == loader,
    {
        InkiResolver { loader }
    }

    /// Whether `path` names an object the loader holds.
    pub open spec fn holds(&self, path: Seq<char>) -> bool {
        self.loader.lookup(path) is Some
    }

    /// Loads the object at `path` and parses it as `T`; fails when the
    /// loader holds no such object.
    pub fn resolve<T: ParseFromKV<L>>(resolver: &Arc<InkiResolver<L>>, path: &str) -> (r: ResolveStatus<T>)
        ensures
            r is Resolved <==> resolver.holds(path@),
            !resolver.holds(path@) ==> r is Failed,
            r matches ResolveStatus::Resolved(x) ==> parsed_from(resolver, path@, *x),
    {
        match resolver.loader.load(path) {
            Some((type_tag, data)) => {
                let obj = T::parse_with_type(data, resolver, type_tag);
                assert(call_ensures(T::parse_with_type, (data, resolver, type_tag), obj));
                let rc = Rc::new(obj);
                assert(*rc == obj);
                assert(data@ == resolver.loader.lookup(path@)->Some_0.1);
                assert(type_tag@ == resolver.loader.lookup(path@)->Some_0.0);
                assert(parsed_from(resolver, path@, *rc));
                ResolveStatus::Resolved(rc)
            },
            None => ResolveStatus::Failed,
        }
    }
}

/// Loads the object at `path` and parses it as `T`.
pub fn resolve_from<T: ParseFromKV<L>, L: ObjectLoader>(resolver: &Arc<InkiResolver<L>>, path: &str) -> (r: ResolveStatus<T>)
    ensures
        r is Resolved <==> resolver.holds(path@),
        !resolver.holds(path@) ==> r is Failed,
        r matches ResolveStatus::Resolved(x) ==> parsed_from(resolver, path@, *x),
{
    InkiResolver::resolve(resolver, path)
}

} // verus!
