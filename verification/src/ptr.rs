//! Pointers between objects of the text data.
//!
//! A pointer names its target by path, holds it inline (an object written
//! inside the field), holds an object built in memory, or is null.

use vstd::prelude::*;
use std::sync::Arc;
use crate::escape::{escape_string, quoted};
use crate::lexed::{clone_kv, render_kv, Lexed, LexedData, LexedKv};
use crate::shared::{PutkiError, TypeDescriptor};
use crate::source::{parsed_from, resolve_from, InkiResolver, ObjectLoader, ParseFromKV, ResolveStatus, WriteAsText};
use crate::strings::{nat_decimal, push_decimal, push_str, string_push};

verus! {

enum PtrTarget<Target, L: ObjectLoader> {
    Null,
    ObjPath { resolver: Arc<InkiResolver<L>>, path: String },
    InlineObject { path: String, type_tag: String, resolver: Arc<InkiResolver<L>>, data: LexedKv },
    TempObject { path: String, object: Arc<Target> },
}

/// The model of a pointer.
pub enum PtrView<Target> {
    Null,
    ObjPath { path: Seq<char> },
    InlineObject { path: Seq<char>, type_tag: Seq<char>, data: Seq<(Seq<char>, Lexed)> },
    TempObject { path: Seq<char>, object: Target },
}

/// A pointer to an object of type `Target`, resolved through a loader of
/// type `L`.
pub struct Ptr<Target, L: ObjectLoader> {
    target: PtrTarget<Target, L>,
}

/// Resolving a pointer to its target.
pub trait PtrInkiResolver<T> {
    /// Whether the pointer leads to an object.
    spec fn resolvable(&self) -> bool;

    /// The target, if the pointer leads to one.
    fn resolve_notrack(&self) -> (r: Option<Arc<T>>)
        ensures
            r is Some <==> self.resolvable(),
    ;

    /// The target of a pointer that leads to one.
    fn unwrap(&self) -> Arc<T>
        requires
            self.resolvable(),
    ;

    /// A copy of the target of a pointer that leads to one.
    fn unwrap_unique(&self) -> Box<T>
        requires
            self.resolvable(),
    ;
}

/// Records the paths a build follows.
pub trait Tracker {
    fn follow(&mut self, path: &str);
}

/// Resolving a pointer while recording the path it follows.
pub trait Resolver<T> {
    fn resolve<K: Tracker>(&self, trk: &mut K) -> Option<Arc<T>>;
}

impl<Target, L: ObjectLoader> Ptr<Target, L> {
    /// The model of the pointer.
    pub closed spec fn view_ptr(&self) -> PtrView<Target> {
        match self.target {
            PtrTarget::Null => PtrView::Null,
            PtrTarget::ObjPath { path, .. } => PtrView::ObjPath { path: path@ },
            PtrTarget::InlineObject { path, type_tag, data, .. } => PtrView::InlineObject {
                path: path@,
                type_tag: type_tag@,
                data: data@,
            },
            PtrTarget::TempObject { path, object } => PtrView::TempObject { path: path@, object: *object },
        }
    }

    /// The resolver a pointer by path or an inline object parses through.
    pub closed spec fn resolver_view(&self) -> Option<Arc<InkiResolver<L>>> {
        match self.target {
            PtrTarget::ObjPath { resolver, .. } => Some(resolver),
            PtrTarget::InlineObject { resolver, .. } => Some(resolver),
            _ => None,
        }
    }

    /// Whether a pointer by path finds its target in its resolver's loader.
    pub closed spec fn path_found(&self) -> bool {
        match self.target {
            PtrTarget::ObjPath { resolver, path } => resolver.holds(path@),
            _ => false,
        }
    }

    /// The path the pointer names, if any.
    pub open spec fn target_path(&self) -> Option<Seq<char>> {
        match self.view_ptr() {
            PtrView::Null => None,
            PtrView::ObjPath { path } => Some(path),
            PtrView::InlineObject { path, .. } => Some(path),
            PtrView::TempObject { path, .. } => Some(path),
        }
    }

    /// The path the pointer names; none for the null pointer.
    pub fn get_target_path(&self) -> (r: Option<&str>)
        ensures
            match self.target_path() {
                Some(p) => r matches Some(x) && x@ == p,
                None => r is None,
            },
    {
        match &self.target {
            PtrTarget::Null => None,
            PtrTarget::ObjPath { path, .. } => Some(path.as_str()),
            PtrTarget::TempObject { path, .. } => Some(path.as_str()),
            PtrTarget::InlineObject { path, .. } => Some(path.as_str()),
        }
    }

    /// A pointer to the object at `path`.
    pub fn new(resolver: Arc<InkiResolver<L>>, path: &str) -> (r: Ptr<Target, L>)
        ensures
            r.view_ptr() == (PtrView::<Target>::ObjPath { path: path@ }),
            r.resolver_view() == Some(resolver),
            r.path_found() == resolver.holds(path@),
    {
        Ptr { target: PtrTarget::ObjPath { resolver, path: path.to_owned() } }
    }

    /// A pointer holding the fields of an object written inline, of type
    /// `type_tag`, filed under `path`.
    pub fn new_inline(resolver: Arc<InkiResolver<L>>, kv: &LexedKv, type_tag: &str, path: &str) -> (r: Ptr<
        Target,
        L,
    >)
        ensures
            r.view_ptr() == (PtrView::<Target>::InlineObject { path: path@, type_tag: type_tag@, data: kv@ }),
    {
        Ptr {
            target: PtrTarget::InlineObject {
                resolver,
                path: path.to_owned(),
                type_tag: type_tag.to_owned(),
                data: clone_kv(kv),
            },
        }
    }

    /// A pointer holding an object built in memory, filed under `path`.
    pub fn new_temp_object(path: &str, obj: Arc<Target>) -> (r: Ptr<Target, L>)
        ensures
            r.view_ptr() == (PtrView::TempObject { path: path@, object: *obj }),
    {
        Ptr { target: PtrTarget::TempObject { path: path.to_owned(), object: obj } }
    }

    /// The object a pointer holds in memory, if it holds one.
    pub fn get_owned_object(&self) -> (r: Option<Arc<Target>>)
        ensures
            match self.view_ptr() {
                PtrView::TempObject { object, .. } => r matches Some(o) && *o == object,
                _ => r is None,
            },
    {
        match &self.target {
            PtrTarget::TempObject { object, .. } => Some(object.clone()),
            _ => None,
        }
    }

    /// The null pointer.
    pub fn null() -> (r: Ptr<Target, L>)
        ensures
            r.view_ptr() == PtrView::<Target>::Null,
    {
        Ptr { target: PtrTarget::Null }
    }

    /// A copy of the pointer, leading to the same target.
    pub fn duplicate(&self) -> (r: Ptr<Target, L>)
        ensures
            r.view_ptr() == self.view_ptr(),
            r.path_found() == self.path_found(),
    {
        let target = match &self.target {
            PtrTarget::Null => PtrTarget::Null,
            PtrTarget::ObjPath { resolver, path } => PtrTarget::ObjPath {
                resolver: resolver.clone(),
                path: path.clone(),
            },
            PtrTarget::InlineObject { path, type_tag, resolver, data } => PtrTarget::InlineObject {
                path: path.clone(),
                type_tag: type_tag.clone(),
                resolver: resolver.clone(),
                data: clone_kv(data),
            },
            PtrTarget::TempObject { path, object } => PtrTarget::TempObject {
                path: path.clone(),
                object: object.clone(),
            },
        };
        Ptr { target }
    }
}

/// How a pointer describes itself in diagnostics.
pub open spec fn describe_text<Target>(v: PtrView<Target>) -> Seq<char> {
    match v {
        PtrView::Null => "Null pointer"@,
        PtrView::ObjPath { path } => "Ptr path["@ + path + "]"@,
        PtrView::InlineObject { path, type_tag, .. } => "Ptr inline object type["@ + type_tag + "] path="@ + path,
        PtrView::TempObject { path, .. } => "Temp object path="@ + path,
    }
}

impl<Target, L: ObjectLoader> Ptr<Target, L> {
    /// A description of the pointer for diagnostics.
    pub fn describe(&self) -> (r: String)
        ensures
            r@ == describe_text(self.view_ptr()),
    {
        let mut out = String::new();
        match &self.target {
            PtrTarget::Null => push_str(&mut out, "Null pointer"),
            PtrTarget::ObjPath { path, .. } => {
                push_str(&mut out, "Ptr path[");
                push_str(&mut out, path.as_str());
                push_str(&mut out, "]");
            },
            PtrTarget::InlineObject { type_tag, path, .. } => {
                push_str(&mut out, "Ptr inline object type[");
                push_str(&mut out, type_tag.as_str());
                push_str(&mut out, "] path=");
                push_str(&mut out, path.as_str());
            },
            PtrTarget::TempObject { path, .. } => {
                push_str(&mut out, "Temp object path=");
                push_str(&mut out, path.as_str());
            },
        }
        out
    }
}

impl<Target, L: ObjectLoader> Default for Ptr<Target, L> {
    fn default() -> (r: Self)
        ensures
            r.view_ptr() == PtrView::<Target>::Null,
    {
        Ptr::null()
    }
}

impl<Target, L: ObjectLoader> Clone for Ptr<Target, L> {
    fn clone(&self) -> (r: Self)
        ensures
            r.view_ptr() == self.view_ptr(),
            r.path_found() == self.path_found(),
    {
        self.duplicate()
    }
}

/// Whether `o` is a copy of what `T::parse_with_type` made of the object
/// the resolver's loader holds under `path`.
pub open spec fn copy_of_parsed<T: ParseFromKV<L>, L: ObjectLoader>(resolver: Arc<InkiResolver<L>>, path: Seq<char>, o: T) -> bool {
    exists|x: T| parsed_from(&resolver, path, x) && #[trigger] cloned::<T>(x, o)
}

impl<T: ParseFromKV<L>, L: ObjectLoader> PtrInkiResolver<T> for Ptr<T, L> {
    closed spec fn resolvable(&self) -> bool {
        match self.target {
            PtrTarget::Null => false,
            PtrTarget::ObjPath { .. } => self.path_found(),
            _ => true,
        }
    }

    /// Null gives none; a path gives a copy of the object parsed from the
    /// loader, if it holds one; an inline object is parsed from its fields;
    /// an object in memory is handed out itself.
    fn resolve_notrack(&self) -> (r: Option<Arc<T>>)
        ensures
            self.view_ptr() is Null ==> r is None,
            self.view_ptr() is InlineObject ==> r is Some,
            self.view_ptr() matches PtrView::ObjPath { path } ==> (r is Some ==> copy_of_parsed(
                self.resolver_view().unwrap(),
                path,
                *r->Some_0,
            )),
            self.view_ptr() matches PtrView::TempObject { object, .. } ==> r matches Some(o) && *o == object,
    {
        match &self.target {
            PtrTarget::Null => None,
            PtrTarget::ObjPath { resolver, path } => {
                match resolve_from::<T, L>(resolver, path.as_str()) {
                    ResolveStatus::Resolved(obj) => {
                        let copy: T = (*obj).clone();
                        assert(cloned::<T>(*obj, copy));
                        assert(copy_of_parsed(*resolver, path@, copy));
                        Some(Arc::new(copy))
                    },
                    _ => None,
                }
            },
            PtrTarget::InlineObject { data, resolver, type_tag, .. } => {
                Some(Arc::new(T::parse_with_type(data, resolver, type_tag.as_str())))
            },
            PtrTarget::TempObject { object, .. } => Some(object.clone()),
        }
    }

    fn unwrap(&self) -> (r: Arc<T>)
        ensures
            self.view_ptr() matches PtrView::TempObject { object, .. } ==> *r == object,
            self.view_ptr() matches PtrView::ObjPath { path } ==> copy_of_parsed(self.resolver_view().unwrap(), path, *r),
    {
        self.resolve_notrack().unwrap()
    }

    /// A clone of the target, in a box of its own.
    fn unwrap_unique(&self) -> (r: Box<T>)
        ensures
            self.view_ptr() matches PtrView::TempObject { object, .. } ==> cloned::<T>(object, *r),
    {
        let a = self.unwrap();
        Box::new((*a).clone())
    }
}

impl<T: ParseFromKV<L>, L: ObjectLoader> Resolver<T> for Ptr<T, L> {
    /// Records the path of a pointer by path, then resolves.
    fn resolve<K: Tracker>(&self, trk: &mut K) -> (r: Option<Arc<T>>)
        ensures
            r is Some <==> self.resolvable(),
    {
        match &self.target {
            PtrTarget::ObjPath { path, .. } => {
                trk.follow(path.as_str());
                self.resolve_notrack()
            },
            _ => self.resolve_notrack(),
        }
    }
}

/// The text form of a pointer: its path, quoted; `""` for null.
pub open spec fn ptr_text(path: Option<Seq<char>>) -> Seq<char> {
    match path {
        Some(p) => quoted(p),
        None => seq!['"', '"'],
    }
}

impl<Target: WriteAsText + TypeDescriptor, L: ObjectLoader> WriteAsText for Ptr<Target, L> {
    fn write_text(&self, output: &mut String) -> (r: Result<(), PutkiError>)
        ensures
            r is Ok,
            final(output)@ == old(output)@ + ptr_text(self.target_path()),
    {
        match self.get_target_path() {
            Some(path) => {
                let e = escape_string(path);
                push_str(output, e.as_str());
            },
            None => {
                string_push(output, '"');
                string_push(output, '"');
            },
        }
        assert(output@.subrange(0, old(output)@.len() as int) =~= old(output)@);
        Ok(())
    }
}

/// The seahash of `bytes`.
pub uninterp spec fn seahash_of(bytes: Seq<u8>) -> u64;

/// Calls `seahash::hash`, a function of the bytes alone; its value is
/// named by `seahash_of`.
#[verifier::external_body]
fn hash_bytes(bytes: &[u8]) -> (r: u64)
    ensures
        r == seahash_of(bytes@),
{
    seahash::hash(bytes)
}

/// The path an anonymous inline object is filed under:
/// `:anon:<type>:<id>:<hash>`.
pub open spec fn anon_path(type_tag: Seq<char>, id: Seq<char>, hash: u64) -> Seq<char> {
    ":anon:"@ + type_tag + seq![':'] + id + seq![':'] + nat_decimal(hash as nat)
}

/// The path an anonymous inline object of type `type_tag` with fields
/// hashing to `hash` is filed under.
pub fn anon_object_path(type_tag: &str, id: &str, hash: u64) -> (r: String)
    ensures
        r@ == anon_path(type_tag@, id@, hash),
{
    let mut n_id = String::new();
    push_str(&mut n_id, ":anon:");
    push_str(&mut n_id, type_tag);
    string_push(&mut n_id, ':');
    push_str(&mut n_id, id);
    string_push(&mut n_id, ':');
    push_decimal(&mut n_id, hash);
    n_id
}

/// The pointer a field value gives: a bare value or a non-empty string
/// names a path, an object written inline is held inline (an anonymous one
/// filed under a path made from the hash of its fields' text form), and
/// anything else is null.
pub fn ptr_from_data<T: ParseFromKV<L>, L: ObjectLoader>(resolver: &Arc<InkiResolver<L>>, ld: &LexedData) -> (r: Ptr<
    T,
    L,
>)
    ensures
        match ld@ {
            Lexed::Value(path) => r.view_ptr() == (PtrView::<T>::ObjPath { path }),
            Lexed::StringLiteral(path) => if path.len() > 0 {
                r.view_ptr() == (PtrView::<T>::ObjPath { path })
            } else {
                r.view_ptr() == PtrView::<T>::Null
            },
            Lexed::Object { kv, id, type_tag } => r.view_ptr() == (PtrView::<T>::InlineObject {
                path: if id.len() == 0 {
                    anon_path(type_tag, id, seahash_of(vstd::utf8::encode_utf8(render_kv(kv))))
                } else {
                    id
                },
                type_tag,
                data: kv,
            }),
            _ => r.view_ptr() == PtrView::<T>::Null,
        },
{
    match ld {
        LexedData::Value(path) => Ptr::new(resolver.clone(), path.as_str()),
        LexedData::StringLiteral(path) => {
            if !path.as_str().is_empty() {
                Ptr::new(resolver.clone(), path.as_str())
            } else {
                Ptr::null()
            }
        },
        LexedData::Object { type_tag, kv, id } => {
            if id.as_str().is_empty() {
                let text = crate::lexed::kv_to_string(kv);
                let hash = hash_bytes(text.as_str().as_bytes());
                let n_id = anon_object_path(type_tag.as_str(), id.as_str(), hash);
                Ptr::new_inline(resolver.clone(), kv, type_tag.as_str(), n_id.as_str())
            } else {
                Ptr::new_inline(resolver.clone(), kv, type_tag.as_str(), id.as_str())
            }
        },
        _ => Ptr::null(),
    }
}

} // verus!
