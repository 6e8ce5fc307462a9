//! Loading objects out of binary packages.
//!
//! A package is a set of slots, each a byte range of the package's data
//! holding one object. Pointer fields refer to slots by index. Resolving an
//! object by path reads it from its slot and follows every pointer it holds,
//! checking that each lands on a slot that reads as the pointed-to type; a
//! pointer that may not be null and is, or one that leads nowhere, fails the
//! whole resolve. Cycles are followed once.
//!
//! Resolved pointers are read again from the package when they are
//! followed, so an object graph with cycles needs no shared mutable state.

use vstd::prelude::*;
use std::marker::PhantomData;
use std::rc::Rc;
use crate::binreader::{BinDataStream, BinReader};
use crate::manifest::{Corruption, OutkiError, OutkiResult, PackageManifest};
use crate::shared::{TypeDescriptor, tag_of};
use crate::strings::chars_of;
use crate::lexed::chars_eq;

verus! {

/// Reads an object from its slot and follows its pointers.
pub trait BinLoader: Sized {
    fn read(stream: &mut BinDataStream) -> OutkiResult<Self>;

    /// Follows the object's pointers; an object without pointers has
    /// nothing to do.
    fn resolve(&mut self, context: &mut BinResolverContext) -> (r: OutkiResult<()>)
        default_ensures
            r is Ok,
    {
        Ok(())
    }
}

/// A type objects of which can be loaded from a package.
pub trait OutkiObj: BinLoader + TypeDescriptor {

}

/// A slot of a loaded package.
pub struct Slot {
    pub path: Option<String>,
    pub type_tag: String,
    /// Compiler-assigned type id, or 0 if unknown.
    pub type_id: usize,
    pub begin: usize,
    pub end: usize,
}

/// A package: its slots and its data.
pub struct Package {
    content: Option<Vec<u8>>,
    slots: Vec<Slot>,
}

/// The model of a slot: path, type id, byte range.
pub struct SlotModel {
    pub path: Option<Seq<char>>,
    pub type_tag: Seq<char>,
    pub type_id: int,
    pub begin: int,
    pub end: int,
}

pub open spec fn slot_model(s: Slot) -> SlotModel {
    SlotModel {
        path: match s.path {
            Some(p) => Some(p@),
            None => None,
        },
        type_tag: s.type_tag@,
        type_id: s.type_id as int,
        begin: s.begin as int,
        end: s.end as int,
    }
}

impl Package {
    /// The slots of the package.
    pub closed spec fn slots_model(&self) -> Seq<SlotModel> {
        Seq::new(self.slots@.len(), |i: int| slot_model(self.slots@[i]))
    }

    /// The package's data, if it has any.
    pub closed spec fn content_model(&self) -> Option<Seq<u8>> {
        match self.content {
            Some(c) => Some(c@),
            None => None,
        }
    }

    /// A package with no slots and no data.
    pub fn new() -> (r: Self)
        ensures
            r.slots_model().len() == 0,
            r.content_model() is None,
    {
        let r = Package { content: None, slots: Vec::new() };
        assert(r.slots_model() =~= Seq::<SlotModel>::empty());
        r
    }

    /// The package a parsed manifest describes, over the whole package's
    /// bytes. Each slot is typed by the name the type table gives its id,
    /// or an empty name.
    pub fn from_manifest(manifest: PackageManifest, content: Vec<u8>) -> (r: Self)
        ensures
            r.content_model() == Some(content@),
            r.slots_model().len() == manifest@.slots.len(),
            forall|i: int|
                0 <= i < manifest@.slots.len() ==> {
                    let m = #[trigger] manifest@.slots[i];
                    let s = r.slots_model()[i];
                    &&& s.path == m.path
                    &&& s.type_id == m.type_id
                    &&& s.begin == m.begin
                    &&& s.end == m.end
                },
    {
        let mut slots: Vec<Slot> = Vec::new();
        let mut i: usize = 0;
        while i < manifest.slots.len()
            invariant
                i <= manifest.slots@.len(),
                slots@.len() == i,
                forall|j: int|
                    0 <= j < i ==> {
                        let m = #[trigger] manifest@.slots[j];
                        let s = slot_model(slots@[j]);
                        &&& s.path == m.path
                        &&& s.type_id == m.type_id
                        &&& s.begin == m.begin
                        &&& s.end == m.end
                    },
            decreases manifest.slots.len() - i,
        {
            let m = &manifest.slots[i];
            let tag = match manifest.name_of_type(m.type_id) {
                Some(n) => n.to_owned(),
                None => String::new(),
            };
            let path = match &m.path {
                Some(p) => Some(p.clone()),
                None => None,
            };
            slots.push(Slot { path, type_tag: tag, type_id: m.type_id, begin: m.begin, end: m.end });
            i = i + 1;
        }
        let r = Package { content: Some(content), slots };
        r
    }

    /// Appends an object's payload to the package's data and adds a slot
    /// for it.
    pub fn insert(&mut self, path: Option<&str>, type_tag: &str, data: &[u8])
        requires
            old(self).content_model() matches Some(c) ==> c.len() + data@.len() <= usize::MAX,
        ensures
            final(self).content_model() == Some(
                match old(self).content_model() {
                    Some(c) => c + data@,
                    None => data@,
                },
            ),
            final(self).slots_model() == old(self).slots_model().push(
                SlotModel {
                    path: match path {
                        Some(p) => Some(p@),
                        None => None,
                    },
                    type_tag: type_tag@,
                    type_id: 0,
                    begin: match old(self).content_model() {
                        Some(c) => c.len() as int,
                        None => 0,
                    },
                    end: match old(self).content_model() {
                        Some(c) => c.len() + data@.len() as int,
                        None => data@.len() as int,
                    },
                },
            ),
    {
        let ghost before = self.slots_model();
        let mut content: Vec<u8> = match self.content.take() {
            Some(c) => c,
            None => Vec::new(),
        };
        let begin = content.len();
        let dl = data.len();
        assert(content@ == old(self).content_model().unwrap_or(Seq::empty()));
        assert(begin + data@.len() <= usize::MAX);
        let mut i: usize = 0;
        while i < data.len()
            invariant
                i <= data@.len(),
                begin == content@.len() - i,
                content@ == old(self).content_model().unwrap_or(Seq::empty()) + data@.take(i as int),
                begin + data@.len() <= usize::MAX,
            decreases data.len() - i,
        {
            content.push(data[i]);
            assert(data@.take(i + 1) =~= data@.take(i as int).push(data@[i as int]));
            i = i + 1;
        }
        assert(data@.take(data@.len() as int) =~= data@);
        let end = begin + data.len();
        let p = match path {
            Some(x) => Some(x.to_owned()),
            None => None,
        };
        self.slots.push(Slot { path: p, type_tag: type_tag.to_owned(), type_id: 0, begin, end });
        self.content = Some(content);
        assert(self.slots_model() =~= before.push(slot_model(self.slots@.last())));
    }

    /// The index of the first slot filed under `path`.
    fn find_path(&self, path: &str) -> (r: Option<usize>)
        ensures
            match r {
                Some(i) => i < self.slots_model().len() && self.slots_model()[i as int].path == Some(path@)
                    && forall|j: int| 0 <= j < i ==> self.slots_model()[j].path != Some(path@),
                None => forall|i: int|
                    0 <= i < self.slots_model().len() ==> self.slots_model()[i].path != Some(path@),
            },
    {
        let mut i: usize = 0;
        while i < self.slots.len()
            invariant
                i <= self.slots@.len(),
                forall|j: int| 0 <= j < i ==> self.slots_model()[j].path != Some(path@),
            decreases self.slots.len() - i,
        {
            match &self.slots[i].path {
                Some(p) => {
                    let a = chars_of(p.as_str());
                    let b = chars_of(path);
                    if chars_eq(&a, &b) {
                        return Some(i);
                    }
                },
                None => {},
            }
            i = i + 1;
        }
        None
    }
}

/// Where a resolve reads from: a package of a manager.
pub struct BinReaderContext<'a> {
    pub mgr: &'a BinPackageManager,
    pub package: usize,
}

/// A slot a pointer was found to lead to without an object.
pub struct UnresolvedEntry {
    pub tag: &'static str,
    pub slot: usize,
}

/// The state of one resolve: the package read from, the slots already
/// followed, and the slots that could not be.
pub struct BinResolverContext {
    package: Rc<Package>,
    unresolved: Vec<UnresolvedEntry>,
    loaded: Vec<usize>,
}

/// A pointer that may be null, as read from a payload: a slot index, or -1.
pub struct NullablePtr<T> {
    slot: i32,
    package: Option<Rc<Package>>,
    _ph: PhantomData<T>,
}

/// A pointer that must not be null.
pub struct Ptr<T> {
    slot: i32,
    package: Option<Rc<Package>>,
    _ph: PhantomData<T>,
}

/// A resolved object.
pub struct Ref<T> {
    obj: Rc<T>,
}

impl<T> Ref<T> {
    /// The object held.
    pub closed spec fn object(&self) -> T {
        *self.obj
    }

    /// The object.
    pub fn get(&self) -> (r: &T)
        ensures
            *r == self.object(),
    {
        &*self.obj
    }
}

impl<T> NullablePtr<T> {
    /// The slot reference read from the payload: -1 for null.
    pub closed spec fn reference(&self) -> i32 {
        self.slot
    }

    /// Whether a resolve has attached the pointer to its package.
    pub closed spec fn attached(&self) -> bool {
        self.package is Some
    }

    /// The slots and data of the package the pointer is attached to; none
    /// and no data while it is not attached.
    pub closed spec fn package_model(&self) -> (Seq<SlotModel>, Option<Seq<u8>>) {
        match self.package {
            Some(p) => (p.slots_model(), p.content_model()),
            None => (Seq::empty(), None),
        }
    }
}

impl<T> Ptr<T> {
    /// The slot reference read from the payload: -1 for null.
    pub closed spec fn reference(&self) -> i32 {
        self.slot
    }

    /// Whether a resolve has attached the pointer to its package.
    pub closed spec fn attached(&self) -> bool {
        self.package is Some
    }

    /// The slots and data of the package the pointer is attached to; none
    /// and no data while it is not attached.
    pub closed spec fn package_model(&self) -> (Seq<SlotModel>, Option<Seq<u8>>) {
        match self.package {
            Some(p) => (p.slots_model(), p.content_model()),
            None => (Seq::empty(), None),
        }
    }
}

impl<T> BinReader for NullablePtr<T> {
    /// An `i32` slot reference.
    fn read(stream: &mut BinDataStream) -> (r: OutkiResult<NullablePtr<T>>)
        ensures
            r matches Ok(p) ==> !p.attached() && old(stream).rest().len() >= 4 && p.reference()
                == crate::manifest::le_u32(old(stream).rest(), 0) as i32,
            old(stream).rest().len() >= 4 ==> r is Ok,
    {
        match i32::read(stream) {
            Ok(slot) => Ok(NullablePtr { slot, package: None, _ph: PhantomData }),
            Err(e) => Err(e),
        }
    }
}

impl<T> BinReader for Ptr<T> {
    /// An `i32` slot reference.
    fn read(stream: &mut BinDataStream) -> (r: OutkiResult<Ptr<T>>)
        ensures
            r matches Ok(p) ==> !p.attached() && old(stream).rest().len() >= 4 && p.reference()
                == crate::manifest::le_u32(old(stream).rest(), 0) as i32,
            old(stream).rest().len() >= 4 ==> r is Ok,
    {
        match i32::read(stream) {
            Ok(slot) => Ok(Ptr { slot, package: None, _ph: PhantomData }),
            Err(e) => Err(e),
        }
    }
}

/// Why loading slot `slot` of a package as a `T` with type id `wanted`
/// fails before the object is read, if it does.
pub open spec fn slot_failure(pkg: Seq<SlotModel>, content: Option<Seq<u8>>, slot: int, wanted: int) -> Option<
    OutkiError,
> {
    if slot < 0 || slot >= pkg.len() {
        Some(OutkiError::SlotNotFound)
    } else if content is None {
        Some(OutkiError::DataMissing)
    } else if pkg[slot].begin > pkg[slot].end || pkg[slot].end > content.unwrap().len() {
        Some(OutkiError::DataMissing)
    } else if pkg[slot].type_id != 0 && wanted != 0 && pkg[slot].type_id != wanted {
        Some(OutkiError::TypeMismatch { wanted: wanted as usize, found: pkg[slot].type_id as usize })
    } else {
        None
    }
}

/// The payload bytes of slot `slot`.
pub open spec fn slot_data(pkg: Seq<SlotModel>, content: Option<Seq<u8>>, slot: int) -> Seq<u8> {
    content.unwrap().subrange(pkg[slot].begin, pkg[slot].end)
}

/// Whether `T`'s own `read`, handed a stream over `bytes`, gave `res`.
pub open spec fn read_gives<T: BinLoader>(bytes: Seq<u8>, res: OutkiResult<T>) -> bool {
    exists|d: &mut BinDataStream| mut_ref_current(d).rest() == bytes && #[trigger] call_ensures(T::read, (d,), res)
}

/// Whether `T`'s own `resolve`, handed `obj`, gave `res`.
pub open spec fn resolve_gives<T: BinLoader>(obj: T, res: OutkiResult<()>) -> bool {
    exists|d: &mut T, c: &mut BinResolverContext|
        mut_ref_current(d) == obj && #[trigger] call_ensures(T::resolve, (d, c), res)
}

/// Whether `res` is how loading a `T` from the payload `bytes` ends: the
/// object `T::read` gives is handed to `T::resolve`, and the load succeeds
/// when both do; otherwise it fails with the error of the one that failed.
pub open spec fn load_outcome<T: BinLoader>(bytes: Seq<u8>, res: OutkiResult<()>) -> bool {
    match res {
        Ok(()) => exists|o: T| #[trigger] read_gives(bytes, Ok::<T, OutkiError>(o)) && resolve_gives(o, Ok::<(), OutkiError>(())),
        Err(e) => read_gives(bytes, Err::<T, OutkiError>(e)) || exists|o: T|
            #[trigger] read_gives(bytes, Ok::<T, OutkiError>(o)) && resolve_gives(o, Err::<(), OutkiError>(e)),
    }
}

/// Whether a result succeeded, and its error if not.
pub open spec fn outcome_of<X>(r: OutkiResult<X>) -> OutkiResult<()> {
    match r {
        Ok(_) => Ok(()),
        Err(e) => Err(e),
    }
}

/// Reads a `T` by its own `read`, and says so.
fn read_object<T: BinLoader>(stream: &mut BinDataStream) -> (r: OutkiResult<T>)
    ensures
        read_gives::<T>(old(stream).rest(), r),
{
    T::read(stream)
}

/// Follows the pointers of `obj` by its own `resolve`, and says so.
fn resolve_object<T: BinLoader>(obj: &mut T, context: &mut BinResolverContext) -> (r: OutkiResult<()>)
    ensures
        resolve_gives::<T>(*old(obj), r),
{
    obj.resolve(context)
}

impl BinResolverContext {
    /// The package the resolve reads from.
    pub closed spec fn package_model(&self) -> (Seq<SlotModel>, Option<Seq<u8>>) {
        (self.package.slots_model(), self.package.content_model())
    }

    /// The slots already followed.
    pub closed spec fn loaded_slots(&self) -> Seq<usize> {
        self.loaded@
    }

    /// The slots that failed to load, each with the type tag it was asked
    /// for, in the order they failed.
    pub closed spec fn unresolved_view(&self) -> Seq<(usize, Seq<char>)> {
        Seq::new(self.unresolved@.len(), |i: int| (self.unresolved@[i].slot, self.unresolved@[i].tag@))
    }

    fn new(package: Rc<Package>) -> (r: Self)
        ensures
            r.package_model() == (package.slots_model(), package.content_model()),
            r.loaded_slots().len() == 0,
            r.unresolved_view().len() == 0,
    {
        BinResolverContext { package, unresolved: Vec::new(), loaded: Vec::new() }
    }

    fn is_loaded(&self, slot: usize) -> (r: bool)
        ensures
            r == self.loaded_slots().contains(slot),
    {
        let mut i: usize = 0;
        while i < self.loaded.len()
            invariant
                i <= self.loaded@.len(),
                forall|j: int| 0 <= j < i ==> self.loaded@[j] != slot,
            decreases self.loaded.len() - i,
        {
            if self.loaded[i] == slot {
                return true;
            }
            i = i + 1;
        }
        false
    }

    /// Reads the object in `slot` as a `T` and follows its pointers.
    ///
    /// Fails as `slot_failure` says before reading anything; otherwise the
    /// result is what reading and following give.
    pub fn load_and_try_resolve<T: OutkiObj>(&mut self, slot: usize) -> (r: OutkiResult<T>)
        ensures
            slot_failure(old(self).package_model().0, old(self).package_model().1, slot as int, T::TYPE_ID as int)
                matches Some(e) ==> r matches Err(x) && x == e,
            slot_failure(old(self).package_model().0, old(self).package_model().1, slot as int, T::TYPE_ID as int)
                is None ==> load_outcome::<T>(
                slot_data(old(self).package_model().0, old(self).package_model().1, slot as int),
                outcome_of(r),
            ),
    {
        let pkg = self.package.clone();
        if slot >= pkg.slots.len() {
            return Err(OutkiError::SlotNotFound);
        }
        let s = &pkg.slots[slot];
        assert(slot_model(*s) == self.package_model().0[slot as int]);
        let data = match &pkg.content {
            Some(d) => d,
            None => return Err(OutkiError::DataMissing),
        };
        if s.begin > s.end || s.end > data.len() {
            return Err(OutkiError::DataMissing);
        }
        let wanted = T::TYPE_ID;
        if s.type_id != 0 && wanted != 0 && s.type_id != wanted {
            return Err(OutkiError::TypeMismatch { wanted, found: s.type_id });
        }
        let mut bytes: Vec<u8> = Vec::new();
        let mut i = s.begin;
        while i < s.end
            invariant
                s.begin <= i <= s.end <= data@.len(),
                bytes@ == data@.subrange(s.begin as int, i as int),
            decreases s.end - i,
        {
            bytes.push(data[i]);
            assert(data@.subrange(s.begin as int, i + 1) =~= data@.subrange(s.begin as int, i as int).push(data@[i as int]));
            i = i + 1;
        }
        assert(bytes@ == slot_data(self.package_model().0, self.package_model().1, slot as int));
        let mut stream = BinDataStream::new(bytes.as_slice());
        let ghost bytes_v = bytes@;
        let read = read_object::<T>(&mut stream);
        let mut obj = match read {
            Ok(o) => o,
            Err(e) => {
                assert(read == Err::<T, OutkiError>(e));
                return Err(e);
            },
        };
        let ghost read_obj = obj;
        assert(read_gives::<T>(bytes_v, Ok::<T, OutkiError>(read_obj)));
        self.loaded.push(slot);
        let res = resolve_object(&mut obj, self);
        match res {
            Ok(()) => {
                assert(res is Ok);
                assert(res->Ok_0 == ());
                assert(res == Ok::<(), OutkiError>(()));
                Ok(obj)
            },
            Err(e) => {
                assert(res == Err::<(), OutkiError>(e));
                Err(e)
            },
        }
    }

    /// Follows a pointer that may be null: attaches it to the package and,
    /// the first time its slot is met, checks that the slot reads as a `T`
    /// whose own pointers resolve.
    pub fn resolve<T: OutkiObj>(&mut self, ptr: &mut NullablePtr<T>) -> (r: OutkiResult<()>)
        ensures
            final(ptr).reference() == old(ptr).reference(),
            old(ptr).reference() == -1 ==> r is Ok && *final(self) == *old(self) && *final(ptr) == *old(ptr),
            r is Err && old(ptr).reference() >= 0 && !old(self).loaded_slots().contains(old(ptr).reference() as usize)
                ==> final(self).unresolved_view().len() > 0 && final(self).unresolved_view().last() == (
                old(ptr).reference() as usize,
                T::TAG@,
            ),
            old(ptr).reference() < -1 ==> r == Err::<(), OutkiError>(OutkiError::SlotNotFound),
            r is Ok && old(ptr).reference() >= 0 ==> final(ptr).attached(),
            old(ptr).reference() >= 0 ==> final(ptr).package_model() == old(self).package_model(),
            old(ptr).reference() >= 0 && old(self).loaded_slots().contains(old(ptr).reference() as usize) ==> r is Ok,
            old(ptr).reference() >= 0 && !old(self).loaded_slots().contains(old(ptr).reference() as usize) ==> (
            slot_failure(
                old(self).package_model().0,
                old(self).package_model().1,
                old(ptr).reference() as int,
                T::TYPE_ID as int,
            ) matches Some(e) ==> r == Err::<(), OutkiError>(e)),
            old(ptr).reference() >= 0 && !old(self).loaded_slots().contains(old(ptr).reference() as usize)
                && slot_failure(
                old(self).package_model().0,
                old(self).package_model().1,
                old(ptr).reference() as int,
                T::TYPE_ID as int,
            ) is None ==> load_outcome::<T>(
                slot_data(old(self).package_model().0, old(self).package_model().1, old(ptr).reference() as int),
                r,
            ),
    {
        if ptr.slot == -1 {
            return Ok(());
        }
        if ptr.slot < 0 {
            return Err(OutkiError::SlotNotFound);
        }
        let slot = ptr.slot as usize;
        ptr.package = Some(self.package.clone());
        if self.is_loaded(slot) {
            return Ok(());
        }
        match self.load_and_try_resolve::<T>(slot) {
            Ok(_) => Ok(()),
            Err(e) => {
                self.unresolved.push(UnresolvedEntry { slot, tag: tag_of::<T>() });
                Err(e)
            },
        }
    }

    /// Follows a pointer that must not be null: a null one fails with
    /// `NonNullIsNull`, otherwise as `resolve`.
    pub fn resolve_not_null<T: OutkiObj>(&mut self, ptr: &mut Ptr<T>) -> (r: OutkiResult<()>)
        ensures
            final(ptr).reference() == old(ptr).reference(),
            old(ptr).reference() == -1 ==> r == Err::<(), OutkiError>(OutkiError::NonNullIsNull) && *final(self)
                == *old(self) && *final(ptr) == *old(ptr),
            r is Err && old(ptr).reference() >= 0 && !old(self).loaded_slots().contains(old(ptr).reference() as usize)
                ==> final(self).unresolved_view().len() > 0 && final(self).unresolved_view().last() == (
                old(ptr).reference() as usize,
                T::TAG@,
            ),
            old(ptr).reference() < -1 ==> r == Err::<(), OutkiError>(OutkiError::SlotNotFound),
            r is Ok ==> final(ptr).attached(),
            old(ptr).reference() >= 0 ==> final(ptr).package_model() == old(self).package_model(),
            old(ptr).reference() >= 0 && old(self).loaded_slots().contains(old(ptr).reference() as usize) ==> r is Ok,
            old(ptr).reference() >= 0 && !old(self).loaded_slots().contains(old(ptr).reference() as usize) ==> (
            slot_failure(
                old(self).package_model().0,
                old(self).package_model().1,
                old(ptr).reference() as int,
                T::TYPE_ID as int,
            ) matches Some(e) ==> r == Err::<(), OutkiError>(e)),
            old(ptr).reference() >= 0 && !old(self).loaded_slots().contains(old(ptr).reference() as usize)
                && slot_failure(
                old(self).package_model().0,
                old(self).package_model().1,
                old(ptr).reference() as int,
                T::TYPE_ID as int,
            ) is None ==> load_outcome::<T>(
                slot_data(old(self).package_model().0, old(self).package_model().1, old(ptr).reference() as int),
                r,
            ),
    {
        if ptr.slot == -1 {
            return Err(OutkiError::NonNullIsNull);
        }
        let mut tmp: NullablePtr<T> = NullablePtr { slot: ptr.slot, package: None, _ph: PhantomData };
        let r = self.resolve(&mut tmp);
        ptr.package = tmp.package;
        r
    }
}

impl<T: OutkiObj> NullablePtr<T> {
    /// The target, read again from the package; none for null, and none
    /// when the pointer was never resolved or its target does not load:
    /// its slot fails as `slot_failure` says, or reading it fails.
    pub fn get(&self) -> (r: Option<Ref<T>>)
        ensures
            self.reference() == -1 ==> r is None,
            !self.attached() ==> r is None,
            self.reference() >= 0 && slot_failure(
                self.package_model().0,
                self.package_model().1,
                self.reference() as int,
                T::TYPE_ID as int,
            ) is Some ==> r is None,
            r is Some ==> self.reference() >= 0 && self.attached(),
            self.reference() >= 0 && self.attached() && slot_failure(
                self.package_model().0,
                self.package_model().1,
                self.reference() as int,
                T::TYPE_ID as int,
            ) is None ==> exists|x: OutkiResult<()>|
                #[trigger] load_outcome::<T>(
                    slot_data(self.package_model().0, self.package_model().1, self.reference() as int),
                    x,
                ) && (r is Some <==> x is Ok),
    {
        if self.slot < 0 {
            return None;
        }
        match &self.package {
            Some(p) => {
                let mut ctx = BinResolverContext::new(p.clone());
                let loaded = ctx.load_and_try_resolve::<T>(self.slot as usize);
                let ghost x = outcome_of(loaded);
                match loaded {
                    Ok(obj) => Some(Ref { obj: Rc::new(obj) }),
                    Err(_) => None,
                }
            },
            None => None,
        }
    }
}

impl<T: OutkiObj> Ptr<T> {
    /// The target, read again from the package. A pointer that was never
    /// resolved fails with `ResolveFailed`.
    pub fn get(&self) -> (r: OutkiResult<Ref<T>>)
        ensures
            !self.attached() ==> r == Err::<Ref<T>, OutkiError>(OutkiError::ResolveFailed),
            self.reference() < 0 ==> r is Err,
            self.attached() && self.reference() >= 0 ==> (slot_failure(
                self.package_model().0,
                self.package_model().1,
                self.reference() as int,
                T::TYPE_ID as int,
            ) matches Some(e) ==> r matches Err(x) && x == e),
            r is Ok ==> self.reference() >= 0 && self.attached(),
            self.attached() && self.reference() >= 0 && slot_failure(
                self.package_model().0,
                self.package_model().1,
                self.reference() as int,
                T::TYPE_ID as int,
            ) is None ==> load_outcome::<T>(
                slot_data(self.package_model().0, self.package_model().1, self.reference() as int),
                outcome_of(r),
            ),
    {
        match &self.package {
            Some(p) => {
                if self.slot < 0 {
                    return Err(OutkiError::NonNullIsNull);
                }
                let mut ctx = BinResolverContext::new(p.clone());
                match ctx.load_and_try_resolve::<T>(self.slot as usize) {
                    Ok(obj) => Ok(Ref { obj: Rc::new(obj) }),
                    Err(e) => Err(e),
                }
            },
            None => Err(OutkiError::ResolveFailed),
        }
    }
}

/// The packages objects are loaded from.
pub struct BinPackageManager {
    packages: Vec<Rc<Package>>,
}

impl BinPackageManager {
    /// How many packages are held.
    pub closed spec fn package_count(&self) -> nat {
        self.packages@.len()
    }

    /// The slots of package `i`.
    pub closed spec fn package_slots(&self, i: int) -> Seq<SlotModel> {
        self.packages@[i].slots_model()
    }

    /// The object data of package `i`.
    pub closed spec fn package_content(&self, i: int) -> Option<Seq<u8>> {
        self.packages@[i].content_model()
    }

    /// Whether slot `j` of package `k` is the first one filed under `path`,
    /// packages searched in order and slots in order within each.
    pub open spec fn first_holder(&self, path: Seq<char>, k: int, j: int) -> bool {
        &&& 0 <= k < self.package_count()
        &&& 0 <= j < self.package_slots(k).len()
        &&& self.package_slots(k)[j].path == Some(path)
        &&& forall|i: int, q: int|
            0 <= i < k && 0 <= q < self.package_slots(i).len() ==> self.package_slots(i)[q].path != Some(path)
        &&& forall|q: int| 0 <= q < j ==> self.package_slots(k)[q].path != Some(path)
    }

    pub fn new() -> (r: BinPackageManager)
        ensures
            r.package_count() == 0,
    {
        BinPackageManager { packages: Vec::new() }
    }

    pub fn insert(&mut self, p: Package)
        ensures
            final(self).package_count() == old(self).package_count() + 1,
            final(self).package_slots(old(self).package_count() as int) == p.slots_model(),
            final(self).package_content(old(self).package_count() as int) == p.content_model(),
            forall|i: int|
                0 <= i < old(self).package_count() ==> final(self).package_slots(i) == old(self).package_slots(i)
                    && final(self).package_content(i) == old(self).package_content(i),
    {
        self.packages.push(Rc::new(p));
    }

    /// Whether some package files a slot under `path`.
    pub open spec fn holds_path(&self, path: Seq<char>) -> bool {
        exists|i: int, j: int|
            0 <= i < self.package_count() && 0 <= j < self.package_slots(i).len() && self.package_slots(i)[j].path
                == Some(path)
    }

    /// Resolves the object filed under `path` as a `T`.
    ///
    /// Fails with `ResolveFailed` when no package files a slot under the
    /// path. The index of the first slot found is then loaded from the
    /// first package, failing as `slot_failure` says for that package.
    pub fn resolve<T: OutkiObj>(&self, path: &str) -> (r: OutkiResult<Ref<T>>)
        ensures
            !self.holds_path(path@) ==> r == Err::<Ref<T>, OutkiError>(OutkiError::ResolveFailed),
            forall|k: int, j: int|
                #![trigger self.first_holder(path@, k, j)]
                self.first_holder(path@, k, j) ==> (slot_failure(
                    self.package_slots(0),
                    self.package_content(0),
                    j,
                    T::TYPE_ID as int,
                ) matches Some(e) ==> r matches Err(x) && x == e),
            r is Ok ==> self.holds_path(path@),
            forall|k: int, j: int|
                #![trigger self.first_holder(path@, k, j)]
                self.first_holder(path@, k, j) && slot_failure(
                    self.package_slots(0),
                    self.package_content(0),
                    j,
                    T::TYPE_ID as int,
                ) is None ==> load_outcome::<T>(
                    slot_data(self.package_slots(0), self.package_content(0), j),
                    outcome_of(r),
                ),
    {
        let mut k: usize = 0;
        while k < self.packages.len()
            invariant
                k <= self.packages@.len(),
                forall|i: int, j: int|
                    0 <= i < k && 0 <= j < self.package_slots(i).len() ==> self.package_slots(i)[j].path != Some(
                        path@,
                    ),
            decreases self.packages.len() - k,
        {
            match self.packages[k].find_path(path) {
                Some(idx) => {
                    assert(self.package_slots(k as int)[idx as int].path == Some(path@));
                    assert(self.first_holder(path@, k as int, idx as int));
                    assert forall|k2: int, j2: int| self.first_holder(path@, k2, j2) implies k2 == k && j2 == idx by {
                        if k2 < k {
                        } else if k2 > k {
                            assert(self.package_slots(k as int)[idx as int].path == Some(path@));
                        } else if j2 > idx {
                        }
                    }
                    let context = BinReaderContext { mgr: self, package: 0 };
                    return self.tree_resolve::<T>(&context, idx);
                },
                None => {},
            }
            k = k + 1;
        }
        Err(OutkiError::ResolveFailed)
    }

    fn tree_resolve<T: OutkiObj>(&self, context: &BinReaderContext, slot: usize) -> (r: OutkiResult<Ref<T>>)
        ensures
            context.package >= self.package_count() ==> r == Err::<Ref<T>, OutkiError>(OutkiError::DataMissing),
            context.package < self.package_count() ==> (slot_failure(
                self.package_slots(context.package as int),
                self.package_content(context.package as int),
                slot as int,
                T::TYPE_ID as int,
            ) matches Some(e) ==> r matches Err(x) && x == e),
            context.package < self.package_count() && slot_failure(
                self.package_slots(context.package as int),
                self.package_content(context.package as int),
                slot as int,
                T::TYPE_ID as int,
            ) is None ==> load_outcome::<T>(
                slot_data(
                    self.package_slots(context.package as int),
                    self.package_content(context.package as int),
                    slot as int,
                ),
                outcome_of(r),
            ),
    {
        if context.package >= self.packages.len() {
            return Err(OutkiError::DataMissing);
        }
        let mut rctx = BinResolverContext::new(self.packages[context.package].clone());
        match rctx.load_and_try_resolve::<T>(slot) {
            Ok(obj) => Ok(Ref { obj: Rc::new(obj) }),
            Err(e) => Err(e),
        }
    }
}

impl<T: BinLoader> BinLoader for Vec<T> {
    /// A `usize` element count, then that many elements.
    fn read(stream: &mut BinDataStream) -> (r: OutkiResult<Vec<T>>)
        ensures
            r matches Ok(v) ==> old(stream).rest().len() >= 8 && v@.len() == crate::manifest::le_u32(
                old(stream).rest(),
                0,
            ),
            old(stream).rest().len() < 8 ==> r is Err,
            old(stream).rest().len() >= 8 && crate::manifest::le_u32(old(stream).rest(), 4) != 0 ==> r == Err::<
                Vec<T>,
                OutkiError,
            >(OutkiError::CorruptPackage(Corruption::OversizedLength)),
    {
        let len = match usize::read(stream) {
            Ok(v) => v,
            Err(e) => return Err(e),
        };
        let mut vec: Vec<T> = Vec::new();
        let mut i: usize = 0;
        while i < len
            invariant
                i <= len,
                vec@.len() == i,
                old(stream).rest().len() >= 8,
                crate::manifest::le_u32(old(stream).rest(), 4) == 0,
                len == crate::manifest::le_u32(old(stream).rest(), 0),
            decreases len - i,
        {
            match T::read(stream) {
                Ok(x) => vec.push(x),
                Err(e) => return Err(e),
            }
            i = i + 1;
        }
        Ok(vec)
    }

    /// Follows the pointers of each element in turn, stopping at the first
    /// failure.
    fn resolve(&mut self, context: &mut BinResolverContext) -> (r: OutkiResult<()>)
        ensures
            final(self)@.len() == old(self)@.len(),
            old(self)@.len() == 0 ==> r is Ok,
    {
        let mut i: usize = 0;
        while i < self.len()
            invariant
                i <= self@.len(),
                self@.len() == old(self)@.len(),
            decreases self@.len() - i,
        {
            let mut x = self.remove(i);
            let r = x.resolve(context);
            self.insert(i, x);
            if r.is_err() {
                return r;
            }
            i = i + 1;
        }
        Ok(())
    }
}

} // verus!
