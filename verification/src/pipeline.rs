//! The build pipeline: the queue of objects to build, the record of each
//! build, and the recipe and writer of a package.
//!
//! A request to build an object carries the pointer to it in a `PtrBox`,
//! turned into the pipeline's object type `O`; built objects are kept the
//! same way. Which code runs for a request is picked by its type at run
//! time, so the caller takes requests from the queue and hands each to
//! the `PtrBox` it holds.

use vstd::prelude::*;
use std::sync::Arc;
use crate::loc::strings_view;
use crate::manifest::{PACKAGE_MAGIC, PACKAGE_VERSION, SLOTFLAG_HAS_PATH, SLOTFLAG_INTERNAL};
use crate::ptr::{Ptr, PtrInkiResolver, PtrView};
use crate::shared::{PutkiError, TypeDescriptor};
use crate::source::{InkiResolver, ObjectLoader, ParseFromKV, WriteAsText};
use crate::strings::{chars_of, push_str, string_push};
use crate::lexed::chars_eq;
use crate::writer::{appends, insert_value, string_bytes, u32_bytes, usize_bytes, BinSaver, BinWriter, PackageRefs};

verus! {

/// What a builder says of itself.
pub struct BuilderDesc {
    pub description: &'static str,
}

/// The inputs a build depends on.
pub struct InputDeps {}

/// The record of one object's build.
pub struct BuildRecord<O> {
    path: String,
    type_tag: &'static str,
    type_id: usize,
    res_base: String,
    built_obj: Option<O>,
    visited: Vec<String>,
    deps: Vec<String>,
    error: Option<String>,
    success: bool,
}

fn strings_contain(v: &Vec<String>, s: &str) -> (r: bool)
    ensures
        r == strings_view(v@).contains(s@),
{
    let sc = chars_of(s);
    let mut i: usize = 0;
    while i < v.len()
        invariant
            i <= v@.len(),
            sc@ == s@,
            forall|j: int| 0 <= j < i ==> v@[j]@ != s@,
        decreases v.len() - i,
    {
        let c = chars_of(v[i].as_str());
        if chars_eq(&c, &sc) {
            assert(strings_view(v@)[i as int] == s@);
            return true;
        }
        i = i + 1;
    }
    assert forall|j: int| 0 <= j < strings_view(v@).len() implies strings_view(v@)[j] != s@ by {
        assert(strings_view(v@)[j] == v@[j]@);
    }
    false
}

/// Adds `s` to the set `v`; true when it was not there yet.
fn set_insert(v: &mut Vec<String>, s: &str) -> (r: bool)
    ensures
        r == !strings_view(old(v)@).contains(s@),
        strings_view(final(v)@) == if r {
            strings_view(old(v)@).push(s@)
        } else {
            strings_view(old(v)@)
        },
{
    if strings_contain(v, s) {
        false
    } else {
        let ghost before = strings_view(v@);
        v.push(s.to_owned());
        assert(strings_view(v@) =~= before.push(s@));
        true
    }
}

impl<O> BuildRecord<O> {
    /// The path of the object built.
    pub closed spec fn path_view(&self) -> Seq<char> {
        self.path@
    }

    /// The type tag of the object built.
    pub closed spec fn tag_view(&self) -> Seq<char> {
        self.type_tag@
    }

    /// The type id of the object built.
    pub closed spec fn type_id_view(&self) -> usize {
        self.type_id
    }

    /// The paths the build followed, each once.
    pub closed spec fn visited_view(&self) -> Seq<Seq<char>> {
        strings_view(self.visited@)
    }

    /// The paths the built object depends on, each once.
    pub closed spec fn deps_view(&self) -> Seq<Seq<char>> {
        strings_view(self.deps@)
    }

    /// Whether the build succeeded.
    pub closed spec fn succeeded(&self) -> bool {
        self.success
    }

    /// The built object, if any.
    pub closed spec fn built(&self) -> Option<O> {
        self.built_obj
    }

    /// The message the build failed with, if it failed with one.
    pub closed spec fn error_view(&self) -> Option<Seq<char>> {
        match self.error {
            Some(m) => Some(m@),
            None => None,
        }
    }

    /// A fresh record for building the object at `path`, of the type
    /// with tag `type_tag` and id `type_id`, with resources under
    /// `res_base`.
    pub fn new(path: &str, type_tag: &'static str, type_id: usize, res_base: &str) -> (r: Self)
        ensures
            r.path_view() == path@,
            r.tag_view() == type_tag@,
            r.type_id_view() == type_id,
            r.res_base_view() == res_base@,
            r.succeeded(),
            r.error_view() is None,
            r.built() is None,
            r.visited_view().len() == 0,
            r.deps_view().len() == 0,
    {
        let r = BuildRecord {
            path: path.to_owned(),
            type_tag,
            type_id,
            res_base: res_base.to_owned(),
            built_obj: None,
            visited: Vec::new(),
            deps: Vec::new(),
            error: None,
            success: true,
        };
        assert(r.visited_view() =~= Seq::<Seq<char>>::empty());
        assert(r.deps_view() =~= Seq::<Seq<char>>::empty());
        r
    }

    pub fn is_ok(&self) -> (r: bool)
        ensures
            r == self.succeeded(),
    {
        self.success
    }

    pub fn get_path(&self) -> (r: &str)
        ensures
            r@ == self.path_view(),
    {
        self.path.as_str()
    }

    /// The type tag of the object built.
    pub fn tag(&self) -> (r: &'static str)
        ensures
            r@ == self.tag_view(),
    {
        self.type_tag
    }

    /// The type id of the object built.
    pub fn type_id(&self) -> (r: usize)
        ensures
            r == self.type_id_view(),
    {
        self.type_id
    }

    /// The directory resources are loaded from.
    pub closed spec fn res_base_view(&self) -> Seq<char> {
        self.res_base@
    }

    /// The directory resources are loaded from.
    pub fn res_base(&self) -> (r: &str)
        ensures
            r@ == self.res_base_view(),
    {
        self.res_base.as_str()
    }

    /// Marks the build failed, with a message.
    pub fn fail(&mut self, message: String)
        ensures
            !final(self).succeeded(),
            final(self).error_view() == Some(message@),
            final(self).path_view() == old(self).path_view(),
            final(self).tag_view() == old(self).tag_view(),
            final(self).type_id_view() == old(self).type_id_view(),
            final(self).deps_view() == old(self).deps_view(),
            final(self).built() == old(self).built(),
    {
        self.success = false;
        self.error = Some(message);
    }

    /// Records the built object.
    pub fn set_built_object(&mut self, obj: O)
        ensures
            final(self).built() == Some(obj),
            final(self).path_view() == old(self).path_view(),
            final(self).tag_view() == old(self).tag_view(),
            final(self).deps_view() == old(self).deps_view(),
            final(self).succeeded() == old(self).succeeded(),
    {
        self.built_obj = Some(obj);
    }

    /// The paths the built object depends on.
    pub fn deps(&self) -> (r: &Vec<String>)
        ensures
            strings_view(r@) == self.deps_view(),
    {
        &self.deps
    }

    /// Records that the built object depends on `path`.
    pub fn add_dep(&mut self, path: &str)
        ensures
            final(self).deps_view() == if old(self).deps_view().contains(path@) {
                old(self).deps_view()
            } else {
                old(self).deps_view().push(path@)
            },
            final(self).path_view() == old(self).path_view(),
            final(self).tag_view() == old(self).tag_view(),
            final(self).built() == old(self).built(),
            final(self).succeeded() == old(self).succeeded(),
    {
        set_insert(&mut self.deps, path);
    }

    /// A pointer holding an object created during the build, filed under
    /// the record's path, `!` and `tag`.
    pub fn create_object<T, L: ObjectLoader>(&mut self, tag: &str, obj: T) -> (r: Ptr<T, L>)
        ensures
            r.view_ptr() == (crate::ptr::PtrView::TempObject {
                path: old(self).path_view() + seq!['!'] + tag@,
                object: obj,
            }),
            *final(self) == *old(self),
    {
        let mut tmp_path = self.path.clone();
        string_push(&mut tmp_path, '!');
        push_str(&mut tmp_path, tag);
        assert(tmp_path@ =~= self.path@ + seq!['!'] + tag@);
        Ptr::new_temp_object(tmp_path.as_str(), Arc::new(obj))
    }

    /// The built object.
    pub fn built_object(&self) -> (r: Option<&O>)
        ensures
            match self.built() {
                Some(o) => r == Some(&o),
                None => r is None,
            },
    {
        match &self.built_obj {
            Some(b) => Some(b),
            None => None,
        }
    }
}

impl<O> crate::ptr::Tracker for BuildRecord<O> {
    /// Records that the build followed `path`.
    fn follow(&mut self, path: &str)
        ensures
            final(self).visited_view() == if old(self).visited_view().contains(path@) {
                old(self).visited_view()
            } else {
                old(self).visited_view().push(path@)
            },
    {
        set_insert(&mut self.visited, path);
    }
}

/// How a pipeline finds its sources and resources.
pub struct PipelineDesc<L: ObjectLoader> {
    source: Arc<L>,
    res_base: String,
}

impl<L: ObjectLoader> PipelineDesc<L> {
    /// The loader sources are read from.
    pub closed spec fn source_view(&self) -> L {
        *self.source
    }

    /// The directory resources are loaded from.
    pub closed spec fn res_base_view(&self) -> Seq<char> {
        self.res_base@
    }

    pub fn new(source: Arc<L>, res_base: &str) -> (r: PipelineDesc<L>)
        ensures
            r.source_view() == *source,
            r.res_base_view() == res_base@,
    {
        PipelineDesc { source, res_base: res_base.to_owned() }
    }
}

/// A request to build the object at `path`, of type `type_tag`; `invoker`
/// holds the pointer to the object.
pub struct BuildRequest<O> {
    pub path: String,
    pub type_tag: &'static str,
    pub invoker: O,
}

/// The build queue and the records of finished builds.
///
/// Each path is queued at most once; finished builds are kept by path, a
/// later record for a path replacing the earlier one.
pub struct Pipeline<L: ObjectLoader, O> {
    desc: PipelineDesc<L>,
    to_build: Vec<BuildRequest<O>>,
    inserted: Vec<String>,
    built: Vec<BuildRecord<O>>,
}

/// The type of the object a record holds: its id and its tag.
pub open spec fn record_type<O>(r: BuildRecord<O>) -> (usize, Seq<char>) {
    (r.type_id_view(), r.tag_view())
}

/// The paths of a list of records.
pub open spec fn record_paths<O>(rs: Seq<BuildRecord<O>>) -> Seq<Seq<char>> {
    Seq::new(rs.len(), |i: int| rs[i].path_view())
}

impl<L: ObjectLoader, O> Pipeline<L, O> {
    /// The paths queued so far, each once, in the order they were queued.
    pub closed spec fn inserted_view(&self) -> Seq<Seq<char>> {
        strings_view(self.inserted@)
    }

    /// The requests waiting, first first.
    pub closed spec fn queue_view(&self) -> Seq<(Seq<char>, Seq<char>)> {
        Seq::new(self.to_build@.len(), |i: int| (self.to_build@[i].path@, self.to_build@[i].type_tag@))
    }

    /// The records of finished builds.
    pub closed spec fn records(&self) -> Seq<BuildRecord<O>> {
        self.built@
    }

    /// The pipeline's invariant: no path queued or recorded twice.
    #[verifier::type_invariant]
    pub open spec fn wf(&self) -> bool {
        &&& self.inserted_view().no_duplicates()
        &&& record_paths(self.records()).no_duplicates()
    }

    pub fn new(desc: PipelineDesc<L>) -> (r: Self)
        ensures
            r.wf(),
            r.inserted_view().len() == 0,
            r.queue_view().len() == 0,
            r.records().len() == 0,
    {
        let inserted: Vec<String> = Vec::new();
        let built: Vec<BuildRecord<O>> = Vec::new();
        assert(strings_view(inserted@) =~= Seq::<Seq<char>>::empty());
        assert(record_paths(built@) =~= Seq::<Seq<char>>::empty());
        let r = Pipeline { desc, to_build: Vec::new(), inserted, built };
        assert(r.queue_view() =~= Seq::<(Seq<char>, Seq<char>)>::empty());
        r
    }

    /// Keeps the record of a finished build, replacing any earlier record
    /// for its path.
    #[verifier::spinoff_prover]
    pub fn on_build_done(&mut self, br: BuildRecord<O>)
        ensures
            final(self).inserted_view() == old(self).inserted_view(),
            final(self).queue_view() == old(self).queue_view(),
            record_paths(final(self).records()).to_set() == record_paths(old(self).records()).to_set().insert(
                br.path_view(),
            ),
            exists|i: int| 0 <= i < final(self).records().len() && final(self).records()[i] == br,
    {
        proof {
            use_type_invariant(&*self);
        }
        let mut built: Vec<BuildRecord<O>> = Vec::new();
        std::mem::swap(&mut built, &mut self.built);
        let ghost old_paths = record_paths(built@);
        let p = chars_of(br.path.as_str());
        let mut i: usize = 0;
        while i < built.len()
            invariant
                i <= built@.len(),
                p@ == br.path@,
                old_paths == record_paths(built@),
                forall|j: int| 0 <= j < i ==> built@[j].path@ != br.path@,
            ensures
                i <= built@.len(),
                old_paths == record_paths(built@),
                forall|j: int| 0 <= j < i ==> built@[j].path@ != br.path@,
                i < built@.len() ==> built@[i as int].path@ == br.path@,
            decreases built.len() - i,
        {
            let q = chars_of(built[i].path.as_str());
            if chars_eq(&q, &p) {
                break;
            }
            i = i + 1;
        }
        if i < built.len() {
            let ghost before = built@;
            built.set(i, br);
            proof {
                assert(old_paths[i as int] == br.path_view());
                assert(record_paths(built@) =~= old_paths);
                assert(old_paths.to_set().contains(br.path_view()));
                assert(record_paths(built@).to_set() =~= old_paths.to_set().insert(br.path_view()));
                assert(built@[i as int] == br);
            }
        } else {
            built.push(br);
            proof {
                let np = record_paths(built@);
                assert(np =~= old_paths.push(br.path_view()));
                assert(!old_paths.contains(br.path_view())) by {
                    if old_paths.contains(br.path_view()) {
                        let k = choose|k: int| 0 <= k < old_paths.len() && old_paths[k] == br.path_view();
                        assert(built@[k].path@ == br.path@);
                    }
                }
                assert(np.no_duplicates()) by {
                    assert forall|a: int, b: int| 0 <= a < np.len() && 0 <= b < np.len() && a != b implies np[a]
                        != np[b] by {
                        if a == old_paths.len() {
                            assert(np[b] == old_paths[b]);
                        } else if b == old_paths.len() {
                            assert(np[a] == old_paths[a]);
                        } else {
                            assert(np[a] == old_paths[a] && np[b] == old_paths[b]);
                        }
                    }
                }
                old_paths.lemma_push_to_set_commute(br.path_view());
                assert(built@[built@.len() - 1] == br);
            }
        }
        self.built = built;
    }

    /// Marks `path` as queued; true when it was not queued before.
    pub fn insert_path_to_build(&mut self, path: &str) -> (r: bool)
        ensures
            r == !old(self).inserted_view().contains(path@),
            final(self).inserted_view() == if r {
                old(self).inserted_view().push(path@)
            } else {
                old(self).inserted_view()
            },
            final(self).queue_view() == old(self).queue_view(),
            final(self).records() == old(self).records(),
    {
        proof {
            use_type_invariant(&*self);
        }
        let ghost before = self.inserted_view();
        let mut inserted: Vec<String> = Vec::new();
        std::mem::swap(&mut inserted, &mut self.inserted);
        let r = set_insert(&mut inserted, path);
        proof {
            if r {
                let np = strings_view(inserted@);
                assert forall|a: int, b: int| 0 <= a < np.len() && 0 <= b < np.len() && a != b implies np[a]
                    != np[b] by {
                    if a == before.len() {
                        assert(np[b] == before[b]);
                        assert(before.contains(np[b]));
                    } else if b == before.len() {
                        assert(np[a] == before[a]);
                        assert(before.contains(np[a]));
                    } else {
                        assert(np[a] == before[a] && np[b] == before[b]);
                    }
                }
            }
        }
        self.inserted = inserted;
        r
    }

    fn enqueue(&mut self, path: &str, type_tag: &'static str, invoker: O)
        ensures
            final(self).queue_view() == old(self).queue_view().push((path@, type_tag@)),
            final(self).inserted_view() == old(self).inserted_view(),
            final(self).records() == old(self).records(),
    {
        proof {
            use_type_invariant(&*self);
        }
        let ghost before = self.queue_view();
        let mut to_build: Vec<BuildRequest<O>> = Vec::new();
        std::mem::swap(&mut to_build, &mut self.to_build);
        to_build.push(BuildRequest { path: path.to_owned(), type_tag, invoker });
        self.to_build = to_build;
        assert(self.queue_view() =~= before.push((path@, type_tag@)));
    }

    /// Queues the build of the object a pointer names, unless its path was
    /// queued before.
    pub fn build_ptr<T: TypeDescriptor>(&mut self, ptr: &Ptr<T, L>) where O: From<PtrBox<T, L>>
        requires
            ptr.target_path() is Some,
        ensures
            final(self).records() == old(self).records(),
            ({
                let p = ptr.target_path().unwrap();
                if old(self).inserted_view().contains(p) {
                    final(self).inserted_view() == old(self).inserted_view() && final(self).queue_view()
                        == old(self).queue_view()
                } else {
                    final(self).inserted_view() == old(self).inserted_view().push(p) && final(self).queue_view()
                        == old(self).queue_view().push((p, T::TAG@))
                }
            }),
    {
        let path = ptr.get_target_path().unwrap();
        if self.insert_path_to_build(path) {
            self.enqueue(path, T::TAG, O::from(PtrBox { ptr: ptr.clone() }));
        }
    }

    /// Records that `br`'s object depends on the pointer's target, and
    /// queues the target's build. A null pointer depends on nothing.
    pub fn add_output_dependency<T: TypeDescriptor>(&mut self, br: &mut BuildRecord<O>, ptr: &Ptr<T, L>) where
        O: From<PtrBox<T, L>>,
        ensures
            final(self).records() == old(self).records(),
            match ptr.target_path() {
                Some(p) => {
                    &&& final(br).deps_view() == if old(br).deps_view().contains(p) {
                        old(br).deps_view()
                    } else {
                        old(br).deps_view().push(p)
                    }
                    &&& final(self).inserted_view() == if old(self).inserted_view().contains(p) {
                        old(self).inserted_view()
                    } else {
                        old(self).inserted_view().push(p)
                    }
                },
                None => final(br).deps_view() == old(br).deps_view() && final(self).inserted_view()
                    == old(self).inserted_view(),
            },
            final(br).path_view() == old(br).path_view(),
            final(br).tag_view() == old(br).tag_view(),
            final(br).built() == old(br).built(),
            final(br).succeeded() == old(br).succeeded(),
    {
        match ptr.get_target_path() {
            Some(path) => {
                self.build_ptr(ptr);
                br.add_dep(path);
            },
            None => {},
        }
    }

    /// A pointer to the source object at `path`.
    pub fn make_src_ptr<T>(&self, path: &str) -> (r: Ptr<T, L>)
        ensures
            r.view_ptr() == (crate::ptr::PtrView::<T>::ObjPath { path: path@ }),
    {
        Ptr::new(Arc::new(InkiResolver::new(self.desc.source.clone())), path)
    }

    /// Queues the build of the source object at `path` as a `T`, unless
    /// the path was queued before.
    pub fn build_as<T: TypeDescriptor>(&mut self, path: &str) where O: From<PtrBox<T, L>>
        ensures
            final(self).records() == old(self).records(),
            if old(self).inserted_view().contains(path@) {
                final(self).inserted_view() == old(self).inserted_view() && final(self).queue_view()
                    == old(self).queue_view()
            } else {
                final(self).inserted_view() == old(self).inserted_view().push(path@) && final(self).queue_view()
                    == old(self).queue_view().push((path@, T::TAG@))
            },
    {
        if self.insert_path_to_build(path) {
            let ptr: Ptr<T, L> = self.make_src_ptr(path);
            self.enqueue(path, T::TAG, O::from(PtrBox { ptr }));
        }
    }

    /// Takes the first waiting request; none when the queue is empty.
    pub fn take(&mut self) -> (r: Option<BuildRequest<O>>)
        ensures
            final(self).inserted_view() == old(self).inserted_view(),
            final(self).records() == old(self).records(),
            old(self).queue_view().len() == 0 ==> r is None && final(self).queue_view() == old(self).queue_view(),
            old(self).queue_view().len() > 0 ==> (r matches Some(req) && (req.path@, req.type_tag@)
                == old(self).queue_view()[0] && final(self).queue_view() == old(self).queue_view().drop_first()),
    {
        proof {
            use_type_invariant(&*self);
        }
        if self.to_build.len() == 0 {
            return None;
        }
        let ghost before = self.queue_view();
        let mut to_build: Vec<BuildRequest<O>> = Vec::new();
        std::mem::swap(&mut to_build, &mut self.to_build);
        let req = to_build.remove(0);
        self.to_build = to_build;
        assert(self.queue_view() =~= before.drop_first());
        Some(req)
    }

    /// The records of finished builds.
    pub fn peek_build_records(&self) -> (r: &Vec<BuildRecord<O>>)
        ensures
            r@ == self.records(),
    {
        &self.built
    }

    /// The record of the build of `path`, if it finished.
    pub fn record(&self, path: &str) -> (r: Option<&BuildRecord<O>>)
        ensures
            match r {
                Some(br) => br.path_view() == path@ && self.records().contains(*br),
                None => !record_paths(self.records()).contains(path@),
            },
    {
        let p = chars_of(path);
        let mut i: usize = 0;
        while i < self.built.len()
            invariant
                i <= self.built@.len(),
                p@ == path@,
                forall|j: int| 0 <= j < i ==> self.built@[j].path@ != path@,
            decreases self.built.len() - i,
        {
            let q = chars_of(self.built[i].path.as_str());
            if chars_eq(&q, &p) {
                assert(self.records()[i as int] == self.built@[i as int]);
                return Some(&self.built[i]);
            }
            i = i + 1;
        }
        assert forall|j: int| 0 <= j < record_paths(self.records()).len() implies record_paths(self.records())[j]
            != path@ by {
            assert(record_paths(self.records())[j] == self.built@[j].path@);
        }
        None
    }
}

/// Fills in an object's fields during its build.
pub trait BuildFields<L: ObjectLoader, O> {
    fn build_fields(&mut self, pl: &mut Pipeline<L, O>, br: &mut BuildRecord<O>) -> (r: Result<(), PutkiError>)
        default_ensures
            r is Ok,
    {
        Ok(())
    }
}

/// Builds objects of type `T`.
pub trait Builder<T, O> {
    fn build(&self, br: &mut BuildRecord<O>, input: &mut T) -> Result<(), PutkiError>;

    fn desc(&self) -> BuilderDesc;
}

/// An object that can be built.
///
/// A build and a scan may record dependencies in the record or mark it
/// failed; they leave which object it is for unchanged, and a scan does
/// not turn a failed build into a successful one.
pub trait BuildCandidate<L: ObjectLoader, O>: BuildFields<L, O> {
    fn build(&mut self, p: &mut Pipeline<L, O>, br: &mut BuildRecord<O>) -> (r: Result<(), PutkiError>)
        ensures
            final(br).path_view() == old(br).path_view(),
            final(br).tag_view() == old(br).tag_view(),
            final(br).type_id_view() == old(br).type_id_view(),
    ;

    fn scan_deps(&self, p: &mut Pipeline<L, O>, br: &mut BuildRecord<O>)
        ensures
            final(br).path_view() == old(br).path_view(),
            final(br).tag_view() == old(br).tag_view(),
            final(br).type_id_view() == old(br).type_id_view(),
            !old(br).succeeded() ==> !final(br).succeeded(),
    {
    }
}

/// A source object type the pipeline builds.
pub trait InkiObj<L: ObjectLoader, O>: WriteAsText + BuildCandidate<L, O> + TypeDescriptor + ParseFromKV<
    L,
> + BinSaver + Default {

}

/// The result of a build, written out as text or into a package.
pub trait BuildResultObj: BinSaver {
    fn write_object(&self, output: &mut String) -> Result<(), PutkiError>;
}

/// A pointer to an object, as a build request holds it and as a built
/// object is kept.
pub struct PtrBox<T, L: ObjectLoader> {
    pub ptr: Ptr<T, L>,
}

impl<T: BinSaver, L: ObjectLoader> BinSaver for PtrBox<T, L> {
    /// The object the pointer holds in memory writes itself; a pointer
    /// that holds none fails with `ObjectNotFound`.
    fn write(&self, data: &mut Vec<u8>, refs: &PackageRefs) -> (r: Result<(), PutkiError>)
        ensures
            !(self.ptr.view_ptr() is TempObject) ==> r == Err::<(), PutkiError>(PutkiError::ObjectNotFound)
                && final(data)@ == old(data)@,
    {
        match self.ptr.get_owned_object() {
            Some(x) => (*x).write(data, refs),
            None => {
                assert(data@.subrange(0, data@.len() as int) =~= data@);
                Err(PutkiError::ObjectNotFound)
            },
        }
    }
}

impl<T: BinSaver + WriteAsText, L: ObjectLoader> BuildResultObj for PtrBox<T, L> {
    /// The object the pointer holds in memory, written as text; a pointer
    /// that holds none fails with `ObjectNotFound`.
    fn write_object(&self, output: &mut String) -> (r: Result<(), PutkiError>)
        ensures
            !(self.ptr.view_ptr() is TempObject) ==> r == Err::<(), PutkiError>(PutkiError::ObjectNotFound)
                && final(output)@ == old(output)@,
    {
        match self.ptr.get_owned_object() {
            Some(x) => (*x).write_text(output),
            None => Err(PutkiError::ObjectNotFound),
        }
    }
}

impl<T, L: ObjectLoader> PtrBox<T, L> {
    /// Builds the object the pointer leads to, as requested by `req`: a
    /// copy of the object is built under a fresh record for the request's
    /// path, the record is marked failed when the build fails, the
    /// object's dependencies are scanned, and the record, holding the built
    /// copy, is kept.
    pub fn build<O>(&self, p: &mut Pipeline<L, O>, req: &BuildRequest<O>) where
        T: InkiObj<L, O>,
        O: From<PtrBox<T, L>>,
        requires
            self.ptr.resolvable(),
        ensures
            exists|i: int|
                0 <= i < final(p).records().len() && #[trigger] final(p).records()[i].path_view() == req.path@
                    && final(p).records()[i].tag_view() == T::TAG@ && final(p).records()[i].type_id_view()
                    == T::TYPE_ID && final(p).records()[i].built() is Some,
    {
        let obj = match self.ptr.resolve_notrack() {
            Some(o) => o,
            None => vstd::pervasive::unreached(),
        };
        let mut br: BuildRecord<O> = BuildRecord::new(req.path.as_str(), T::TAG, T::TYPE_ID, p.desc.res_base.as_str());
        let mut copy: T = (*obj).clone();
        if copy.build(p, &mut br).is_err() {
            br.success = false;
        }
        copy.scan_deps(p, &mut br);
        let built = PtrBox { ptr: Ptr::new_temp_object(br.path.as_str(), Arc::new(copy)) };
        br.built_obj = Some(O::from(built));
        p.on_build_done(br);
    }
}

/// Marker for the pipeline shared between build threads.
pub trait Forcate {

}

impl<L: ObjectLoader, O> Forcate for Pipeline<L, O> {

}

/// The objects and types that go into a package.
///
/// Both are sets kept in the order they were first added, so the package
/// written from a recipe does not depend on hash order.
pub struct PackageRecipe {
    paths: Vec<String>,
    types: Vec<(usize, &'static str)>,
}

/// The record filed under `path`, for a list of records with distinct paths.
pub open spec fn record_of<O>(rs: Seq<BuildRecord<O>>, path: Seq<char>) -> BuildRecord<O> {
    rs[choose|i: int| 0 <= i < rs.len() && rs[i].path_view() == path]
}

proof fn lemma_record_of<O>(rs: Seq<BuildRecord<O>>, i: int)
    requires
        0 <= i < rs.len(),
        record_paths(rs).no_duplicates(),
    ensures
        record_of(rs, rs[i].path_view()) == rs[i],
{
    let p = rs[i].path_view();
    let j = choose|j: int| 0 <= j < rs.len() && rs[j].path_view() == p;
    if j != i {
        assert(record_paths(rs)[j] == record_paths(rs)[i]);
    }
}

/// Whether an object among `paths` depends on a path that has no build
/// record.
pub open spec fn has_dangling_dep<O>(paths: Seq<Seq<char>>, records: Seq<BuildRecord<O>>) -> bool {
    exists|x: Seq<char>, d: Seq<char>|
        paths.contains(x) && #[trigger] record_of(records, x).deps_view().contains(d) && !record_paths(records).contains(d)
}

impl PackageRecipe {
    /// The objects, each once, in the order they were added.
    pub closed spec fn paths_view(&self) -> Seq<Seq<char>> {
        strings_view(self.paths@)
    }

    /// The types, each once, in the order they were added.
    pub closed spec fn types_view(&self) -> Seq<(usize, Seq<char>)> {
        Seq::new(self.types@.len(), |i: int| (self.types@[i].0, self.types@[i].1@))
    }

    /// The recipe's invariant: no object or type in it twice.
    pub open spec fn wf(&self) -> bool {
        &&& self.paths_view().no_duplicates()
        &&& self.types_view().no_duplicates()
    }

    /// The recorded objects of `p` not yet in the recipe.
    pub open spec fn missing_from<L: ObjectLoader, O>(&self, p: &Pipeline<L, O>) -> Set<Seq<char>> {
        record_paths(p.records()).to_set().difference(self.paths_view().to_set())
    }

    /// Whether the type of every object added since `before` is in the
    /// recipe.
    pub open spec fn types_cover<O>(&self, before: Seq<Seq<char>>, records: Seq<BuildRecord<O>>) -> bool {
        forall|x: Seq<char>|
            #[trigger] self.paths_view().contains(x) && !before.contains(x) ==> self.types_view().contains(
                record_type(record_of(records, x)),
            )
    }

    /// Whether every dependency of an object added since `before` is in
    /// the recipe too.
    pub open spec fn closed_since<L: ObjectLoader, O>(&self, before: Seq<Seq<char>>, p: &Pipeline<L, O>) -> bool {
        forall|x: Seq<char>, d: Seq<char>|
            #![trigger self.paths_view().contains(x), record_of(p.records(), x).deps_view().contains(d)]
            self.paths_view().contains(x) && !before.contains(x) && record_of(p.records(), x).deps_view().contains(d)
                ==> self.paths_view().contains(d)
    }

    pub fn new() -> (r: PackageRecipe)
        ensures
            r.wf(),
            r.paths_view().len() == 0,
            r.types_view().len() == 0,
    {
        let r = PackageRecipe { paths: Vec::new(), types: Vec::new() };
        assert(r.paths_view() =~= Seq::<Seq<char>>::empty());
        assert(r.types_view() =~= Seq::<(usize, Seq<char>)>::empty());
        r
    }

    fn add_type(&mut self, id: usize, t: &'static str)
        requires
            old(self).types_view().no_duplicates(),
        ensures
            final(self).types_view().no_duplicates(),
            final(self).paths_view() == old(self).paths_view(),
            final(self).types_view() == if old(self).types_view().contains((id, t@)) {
                old(self).types_view()
            } else {
                old(self).types_view().push((id, t@))
            },
    {
        let ghost before = self.types_view();
        let tc = chars_of(t);
        let mut i: usize = 0;
        while i < self.types.len()
            invariant
                i <= self.types@.len(),
                tc@ == t@,
                before == self.types_view(),
                before.no_duplicates(),
                forall|j: int| 0 <= j < i ==> before[j] != (id, t@),
            decreases self.types.len() - i,
        {
            let c = chars_of(self.types[i].1);
            if self.types[i].0 == id && chars_eq(&c, &tc) {
                assert(before[i as int] == (id, t@));
                return;
            }
            assert(before[i as int] != (id, t@));
            i = i + 1;
        }
        assert(!before.contains((id, t@))) by {
            if before.contains((id, t@)) {
                let k = choose|k: int| 0 <= k < before.len() && before[k] == (id, t@);
                assert(before[k] == (id, t@));
            }
        }
        self.types.push((id, t));
        assert(self.types_view() =~= before.push((id, t@)));
        assert(self.types_view().no_duplicates()) by {
            let np = self.types_view();
            assert forall|a: int, b: int| 0 <= a < np.len() && 0 <= b < np.len() && a != b implies np[a] != np[b] by {
                if a == before.len() {
                    assert(np[b] == before[b]);
                } else if b == before.len() {
                    assert(np[a] == before[a]);
                } else {
                    assert(np[a] == before[a] && np[b] == before[b]);
                }
            }
        }
    }

    /// Adds the object at `path` and its type, and with `recurse_deps`
    /// everything it depends on, transitively. An object with no build
    /// record is an error.
    #[verifier::spinoff_prover]
    pub fn add_object<L: ObjectLoader, O>(&mut self, p: &Pipeline<L, O>, path: &str, recurse_deps: bool) -> (r:
        Result<(), PutkiError>)
        requires
            old(self).wf(),
        ensures
            final(self).wf(),
            forall|t: (usize, Seq<char>)| old(self).types_view().contains(t) ==> final(self).types_view().contains(t),
            final(self).paths_view().len() >= old(self).paths_view().len(),
            final(self).paths_view().subrange(0, old(self).paths_view().len() as int) == old(self).paths_view(),
            !record_paths(p.records()).contains(path@) ==> r == Err::<(), PutkiError>(PutkiError::ObjectNotFound)
                && *final(self) == *old(self),
            record_paths(p.records()).contains(path@) ==> final(self).paths_view().contains(path@)
                && final(self).types_view().contains(record_type(record_of(p.records(), path@))),
            r is Ok && recurse_deps ==> final(self).closed_since(old(self).paths_view(), p),
            final(self).types_cover(old(self).paths_view(), p.records()),
            old(self).types_cover(Seq::empty(), p.records()) ==> final(self).types_cover(Seq::empty(), p.records()),
            r is Err ==> !record_paths(p.records()).contains(path@) || (recurse_deps && has_dangling_dep(
                final(self).paths_view(),
                p.records(),
            )),
            r is Ok && !recurse_deps ==> final(self).paths_view() == if old(self).paths_view().contains(path@) {
                old(self).paths_view()
            } else {
                old(self).paths_view().push(path@)
            },
        decreases old(self).missing_from(p).len(),
    {
        proof {
            use_type_invariant(p);
        }
        let ghost start = self.paths_view();
        match p.record(path) {
            Some(br) => {
                let ghost k = choose|k: int| 0 <= k < p.records().len() && p.records()[k] == *br;
                proof {
                    lemma_record_of(p.records(), k);
                    assert(record_paths(p.records())[k] == path@);
                }
                let ghost types_before = self.types_view();
                self.add_type(br.type_id(), br.tag());
                proof {
                    if !types_before.contains(record_type(*br)) {
                        assert(self.types_view()[types_before.len() as int] == record_type(*br));
                    }
                    assert(self.types_view().contains(record_type(*br)));
                    assert forall|t: (usize, Seq<char>)| types_before.contains(t) implies self.types_view().contains(t) by {
                        let j = choose|j: int| 0 <= j < types_before.len() && types_before[j] == t;
                        assert(self.types_view()[j] == t);
                    }
                }
                let ghost before_path = self.paths_view();
                let fresh = set_insert(&mut self.paths, path);
                proof {
                    if fresh {
                        let np = self.paths_view();
                        assert(np[before_path.len() as int] == path@);
                        assert forall|a: int, b: int| 0 <= a < np.len() && 0 <= b < np.len() && a != b implies np[a]
                            != np[b] by {
                            if a == before_path.len() {
                                assert(np[b] == before_path[b]);
                                assert(before_path.contains(np[b]));
                            } else if b == before_path.len() {
                                assert(np[a] == before_path[a]);
                                assert(before_path.contains(np[a]));
                            } else {
                                assert(np[a] == before_path[a] && np[b] == before_path[b]);
                            }
                        }
                    }
                    assert(self.paths_view().contains(path@));
                    assert(record_paths(p.records()).contains(path@));
                    assert(self.paths_view().subrange(0, start.len() as int) =~= start);
                    if fresh {
                        assert(self.paths_view() =~= start.push(path@));
                        assert(self.missing_from(p).subset_of(old(self).missing_from(p).remove(path@)));
                    }
                }
                if fresh && recurse_deps {
                    let deps = br.deps();
                    let mut i: usize = 0;
                    while i < deps.len()
                        invariant
                            recurse_deps,
                            p.wf(),
                            self.wf(),
                            old(self).wf(),
                            i <= deps@.len(),
                            strings_view(deps@) == br.deps_view(),
                            *br == record_of(p.records(), path@),
                            record_paths(p.records()).contains(path@),
                            start == old(self).paths_view(),
                            self.paths_view().len() > start.len(),
                            self.paths_view().subrange(0, start.len() as int) == start,
                            self.paths_view().contains(path@),
                            !start.contains(path@),
                            record_paths(p.records()).contains(path@),
                            self.missing_from(p).subset_of(old(self).missing_from(p).remove(path@)),
                            self.types_view().contains(record_type(*br)),
                            forall|t: (usize, Seq<char>)| old(self).types_view().contains(t) ==> self.types_view().contains(t),
                            self.types_cover(start, p.records()),
                            forall|j: int| 0 <= j < i ==> self.paths_view().contains(#[trigger] strings_view(deps@)[j]),
                            forall|x: Seq<char>, d: Seq<char>|
                                #![trigger self.paths_view().contains(x), record_of(p.records(), x).deps_view().contains(d)]
                                self.paths_view().contains(x) && !start.contains(x) && x != path@ && record_of(
                                    p.records(),
                                    x,
                                ).deps_view().contains(d) ==> self.paths_view().contains(d),
                        decreases deps@.len() - i,
                    {
                        let ghost before = self.paths_view();
                        let ghost before_missing = self.missing_from(p);
                        proof {
                            let d0 = old(self).missing_from(p);
                            vstd::seq_lib::seq_to_set_is_finite(record_paths(p.records()));
                            vstd::set::axiom_set_difference_finite(
                                record_paths(p.records()).to_set(),
                                start.to_set(),
                            );
                            assert(d0.contains(path@));
                            vstd::set::axiom_set_remove_len(d0, path@);
                            vstd::set_lib::lemma_len_subset(self.missing_from(p), d0.remove(path@));
                        }
                        let r = self.add_object(p, deps[i].as_str(), true);
                        proof {
                            assert(strings_view(deps@)[i as int] == deps@[i as int]@);
                            let now = self.paths_view();
                            assert forall|y: Seq<char>| before.contains(y) implies now.contains(y) by {
                                let j = choose|j: int| 0 <= j < before.len() && before[j] == y;
                                assert(now.subrange(0, before.len() as int)[j] == y);
                            }
                            assert(self.missing_from(p).subset_of(before_missing));
                            assert(now.subrange(0, start.len() as int) =~= start) by {
                                assert(now.subrange(0, before.len() as int) == before);
                                assert forall|j: int| 0 <= j < start.len() implies now[j] == start[j] by {
                                    assert(now.subrange(0, before.len() as int)[j] == before[j]);
                                    assert(before.subrange(0, start.len() as int)[j] == start[j]);
                                }
                            }
                            if r is Ok {
                                assert forall|j: int| 0 <= j <= i implies now.contains(
                                    #[trigger] strings_view(deps@)[j],
                                ) by {
                                    if j < i {
                                        assert(before.contains(strings_view(deps@)[j]));
                                    }
                                }
                                assert forall|x: Seq<char>, d: Seq<char>|
                                    now.contains(x) && !start.contains(x) && x != path@ && #[trigger] record_of(
                                        p.records(),
                                        x,
                                    ).deps_view().contains(d) implies now.contains(d) by {
                                    if before.contains(x) {
                                        assert(before.contains(d));
                                    }
                                }
                            }
                        }
                        if r.is_err() {
                            proof {
                                let d = strings_view(deps@)[i as int];
                                assert(br.deps_view()[i as int] == d);
                                assert(d == deps@[i as int]@);
                                if !record_paths(p.records()).contains(d) {
                                    assert(self.paths_view().contains(path@));
                                    assert(record_of(p.records(), path@).deps_view().contains(d));
                                    assert(has_dangling_dep(self.paths_view(), p.records()));
                                }
                            }
                            return r;
                        }
                        i = i + 1;
                    }
                    proof {
                        assert forall|x: Seq<char>, d: Seq<char>|
                            self.paths_view().contains(x) && !start.contains(x) && #[trigger] record_of(
                                p.records(),
                                x,
                            ).deps_view().contains(d) implies #[trigger] self.paths_view().contains(d) by {
                            if x == path@ {
                                let j = choose|j: int| 0 <= j < br.deps_view().len() && br.deps_view()[j] == d;
                                assert(self.paths_view().contains(strings_view(deps@)[j]));
                            }
                        }
                    }
                } else {
                    proof {
                        if !fresh {
                            assert(self.paths_view() == start);
                        }
                        if recurse_deps {
                            assert(!fresh);
                            assert forall|x: Seq<char>, d: Seq<char>|
                                self.paths_view().contains(x) && !start.contains(x) && #[trigger] record_of(
                                    p.records(),
                                    x,
                                ).deps_view().contains(d) implies #[trigger] self.paths_view().contains(d) by {
                                assert(start.contains(x));
                            }
                        }
                    }
                }
                Ok(())
            },
            None => Err(PutkiError::ObjectNotFound),
        }
    }
}

/// The bytes of a type table: each entry's id, then its name as a string.
pub open spec fn types_bytes(ts: Seq<(usize, Seq<char>)>) -> Seq<u8>
    decreases ts.len(),
{
    if ts.len() == 0 {
        Seq::empty()
    } else {
        types_bytes(ts.drop_last()) + usize_bytes(ts.last().0) + string_bytes(ts.last().1)
    }
}

/// The bytes of one slot record: flags (path, in this file), path, type
/// id, and the payload's byte range.
pub open spec fn slot_bytes(path: Seq<char>, type_id: usize, range: (usize, usize)) -> Seq<u8> {
    u32_bytes(3) + string_bytes(path) + usize_bytes(type_id) + usize_bytes(range.0) + usize_bytes(range.1)
}

/// The bytes of the first `n` slot records.
pub open spec fn slots_bytes(paths: Seq<Seq<char>>, ids: Seq<usize>, ranges: Seq<(usize, usize)>, n: nat) -> Seq<u8>
    decreases n,
{
    if n == 0 {
        Seq::empty()
    } else {
        slots_bytes(paths, ids, ranges, (n - 1) as nat) + slot_bytes(
            paths[n - 1],
            ids[n - 1],
            ranges[n - 1],
        )
    }
}

/// A package header: the magic and the version, its size, the type
/// table, and the slots.
pub open spec fn header_bytes(
    size: usize,
    types: Seq<(usize, Seq<char>)>,
    paths: Seq<Seq<char>>,
    ids: Seq<usize>,
    ranges: Seq<(usize, usize)>,
) -> Seq<u8> {
    u32_bytes(PACKAGE_MAGIC) + u32_bytes(PACKAGE_VERSION) + usize_bytes(size) + usize_bytes(types.len() as usize)
        + types_bytes(types) + usize_bytes(paths.len() as usize) + slots_bytes(paths, ids, ranges, paths.len())
}

/// The payloads, one after the other.
pub open spec fn concat_bytes(chunks: Seq<Seq<u8>>) -> Seq<u8>
    decreases chunks.len(),
{
    if chunks.len() == 0 {
        Seq::empty()
    } else {
        concat_bytes(chunks.drop_last()) + chunks.last()
    }
}

/// Where each payload lies when they follow a header `size` bytes long.
pub open spec fn payload_ranges(size: int, chunks: Seq<Seq<u8>>) -> Seq<(usize, usize)> {
    Seq::new(
        chunks.len(),
        |i: int|
            (
                (size + concat_bytes(chunks.take(i)).len()) as usize,
                (size + concat_bytes(chunks.take(i + 1)).len()) as usize,
            ),
    )
}

/// The slot records' type ids for a recipe over `records`: each object's
/// own type id.
pub open spec fn slot_type_ids<O>(records: Seq<BuildRecord<O>>, paths: Seq<Seq<char>>) -> Seq<usize> {
    Seq::new(paths.len(), |i: int| record_of(records, paths[i]).type_id_view())
}

pub(crate) proof fn lemma_slots_len(
    paths: Seq<Seq<char>>,
    ids1: Seq<usize>,
    r1: Seq<(usize, usize)>,
    ids2: Seq<usize>,
    r2: Seq<(usize, usize)>,
    n: nat,
)
    ensures
        slots_bytes(paths, ids1, r1, n).len() == slots_bytes(paths, ids2, r2, n).len(),
    decreases n,
{
    if n > 0 {
        lemma_slots_len(paths, ids1, r1, ids2, r2, (n - 1) as nat);
    }
}

/// The views of a type table's entries.
pub open spec fn type_entries_view(types: Seq<(usize, &'static str)>) -> Seq<(usize, Seq<char>)> {
    Seq::new(types.len(), |i: int| (types[i].0, types[i].1@))
}

fn write_types(out: &mut Vec<u8>, types: &Vec<(usize, &'static str)>)
    ensures
        final(out)@ == old(out)@ + types_bytes(type_entries_view(types@)),
{
    let ghost tv = type_entries_view(types@);
    let mut i: usize = 0;
    while i < types.len()
        invariant
            i <= types@.len(),
            tv == type_entries_view(types@),
            out@ == old(out)@ + types_bytes(tv.take(i as int)),
        decreases types.len() - i,
    {
        assert(tv.take(i + 1).drop_last() =~= tv.take(i as int));
        let ghost before = out@;
        types[i].0.write(out);
        types[i].1.write(out);
        assert(out@ =~= before + usize_bytes(tv[i as int].0) + string_bytes(tv[i as int].1));
        i = i + 1;
    }
    assert(tv.take(types@.len() as int) =~= tv);
}

fn write_header(
    size: usize,
    types: &Vec<(usize, &'static str)>,
    paths: &Vec<String>,
    ids: &Vec<usize>,
    ranges: &Vec<(usize, usize)>,
) -> (r: Vec<u8>)
    requires
        ids@.len() == paths@.len(),
        ranges@.len() == paths@.len(),
    ensures
        r@ == header_bytes(
            size,
            type_entries_view(types@),
            strings_view(paths@),
            ids@,
            ranges@,
        ),
{
    let ghost pv = strings_view(paths@);
    let mut out: Vec<u8> = Vec::new();
    PACKAGE_MAGIC.write(&mut out);
    PACKAGE_VERSION.write(&mut out);
    size.write(&mut out);
    types.len().write(&mut out);
    write_types(&mut out, types);
    paths.len().write(&mut out);
    let ghost start = out@;
    let mut i: usize = 0;
    while i < paths.len()
        invariant
            i <= paths@.len(),
            ids@.len() == paths@.len(),
            ranges@.len() == paths@.len(),
            pv == strings_view(paths@),
            out@ == start + slots_bytes(pv, ids@, ranges@, i as nat),
        decreases paths.len() - i,
    {
        let ghost before = out@;
        let flags: u32 = SLOTFLAG_HAS_PATH | SLOTFLAG_INTERNAL;
        assert(flags == 3) by (bit_vector)
            requires
                flags == (1u32 | 2u32),
        ;
        flags.write(&mut out);
        paths[i].write(&mut out);
        ids[i].write(&mut out);
        ranges[i].0.write(&mut out);
        ranges[i].1.write(&mut out);
        assert(pv[i as int] == paths@[i as int]@);
        assert(out@ =~= before + slot_bytes(pv[i as int], ids@[i as int], ranges@[i as int]));
        i = i + 1;
    }
    out
}

/// Whether `bytes` is a package of the payloads `chunks` for the given
/// types, paths and type ids: a header `size` bytes long, the payloads
/// placed right after it, then the payloads.
#[verifier::opaque]
pub open spec fn package_layout(
    bytes: Seq<u8>,
    size: usize,
    chunks: Seq<Seq<u8>>,
    types: Seq<(usize, Seq<char>)>,
    paths: Seq<Seq<char>>,
    ids: Seq<usize>,
) -> bool {
    &&& chunks.len() == paths.len()
    &&& size == header_bytes(0, types, paths, ids, payload_ranges(0, chunks)).len()
    &&& bytes == header_bytes(size, types, paths, ids, payload_ranges(size as int, chunks)) + concat_bytes(chunks)
}

/// The slot each path of a package is filed in: its place in `paths`.
pub open spec fn slots_of(paths: Seq<Seq<char>>) -> Map<Seq<char>, usize>
    decreases paths.len(),
{
    if paths.len() == 0 {
        Map::empty()
    } else {
        slots_of(paths.drop_last()).insert(paths.last(), (paths.len() - 1) as usize)
    }
}

/// Whether `obj` was written by its own `write`, handed a buffer holding
/// `before` and the slot references `refs`, and that call succeeded.
pub open spec fn written_after<O: BinSaver>(obj: O, refs: PackageRefs, before: Seq<u8>) -> bool {
    exists|d: &mut Vec<u8>|
        mut_ref_current(d)@ == before && #[trigger] call_ensures(O::write, (&obj, d, &refs), Ok::<(), PutkiError>(()))
}

/// Whether `obj`'s own `write`, handed a buffer holding `before` and the
/// slot references `refs`, failed with `e`.
pub open spec fn write_failed<O: BinSaver>(obj: O, refs: PackageRefs, before: Seq<u8>, e: PutkiError) -> bool {
    exists|d: &mut Vec<u8>|
        mut_ref_current(d)@ == before && #[trigger] call_ensures(O::write, (&obj, d, &refs), Err::<(), PutkiError>(e))
}

/// Why writing the payloads of the objects at `paths` with the slot
/// references `refs` can fail with `e`: an object with no build record or
/// no built object (`ObjectNotFound`), or an object's own `write` failing
/// with `e`.
pub open spec fn payload_failure<O: BinSaver>(
    records: Seq<BuildRecord<O>>,
    paths: Seq<Seq<char>>,
    refs: PackageRefs,
    e: PutkiError,
) -> bool {
    ||| e == PutkiError::ObjectNotFound && exists|i: int|
        0 <= i < paths.len() && (!record_paths(records).contains(#[trigger] paths[i]) || record_of(
            records,
            paths[i],
        ).built() is None)
    ||| exists|j: int, before: Seq<u8>|
        0 <= j < paths.len() && #[trigger] write_failed(record_of(records, paths[j]).built().unwrap(), refs, before, e)
}

/// Why writing a package of the objects at `paths` can fail with `e`: as
/// writing its payloads can, with every path filed in its place.
pub open spec fn package_failure<O: BinSaver>(records: Seq<BuildRecord<O>>, paths: Seq<Seq<char>>, e: PutkiError) -> bool {
    exists|refs: PackageRefs| refs.slots() == slots_of(paths) && #[trigger] payload_failure(records, paths, refs, e)
}

/// Writes the package a recipe describes: the header, then each object's
/// payload in slot order.
///
/// The types are numbered by their first place in the recipe; each object
/// is filed under its path, its pointers written as slot references. An
/// object with no build record, or no built object, is an error, as is an
/// error writing any object.
#[verifier::spinoff_prover]
pub fn write_package<L: ObjectLoader, O: BinSaver>(p: &Pipeline<L, O>, recipe: &PackageRecipe) -> (r: Result<
    Vec<u8>,
    PutkiError,
>)
    ensures
        (exists|i: int|
            0 <= i < recipe.paths_view().len() && (!record_paths(p.records()).contains(recipe.paths_view()[i])
                || record_of(p.records(), recipe.paths_view()[i]).built() is None)) ==> r is Err,
        recipe.paths_view().len() == 0 ==> r is Ok,
        r matches Err(e) ==> package_failure(p.records(), recipe.paths_view(), e),
        r is Ok ==> exists|size: usize, chunks: Seq<Seq<u8>>, refs: PackageRefs|
            #![trigger package_layout(
                r->Ok_0@,
                size,
                chunks,
                recipe.types_view(),
                recipe.paths_view(),
                slot_type_ids(p.records(), recipe.paths_view()),
            ), refs.slots()]
            package_layout(
                r->Ok_0@,
                size,
                chunks,
                recipe.types_view(),
                recipe.paths_view(),
                slot_type_ids(p.records(), recipe.paths_view()),
            ) && refs.slots() == slots_of(recipe.paths_view()) && forall|j: int|
                0 <= j < recipe.paths_view().len() ==> #[trigger] written_after(
                    record_of(p.records(), recipe.paths_view()[j]).built().unwrap(),
                    refs,
                    r->Ok_0@.subrange(size as int, payload_ranges(size as int, chunks)[j].0 as int),
                ),
{
    proof {
        use_type_invariant(p);
    }
    let ghost tv = recipe.types_view();
    let ghost pv = recipe.paths_view();
    let ghost records = p.records();
    let (refs, ids) = slot_ids(p, recipe);
    let (body, rel, Ghost(chunks)) = match write_payloads(p, recipe, &refs) {
        Ok(x) => x,
        Err(e) => return Err(e),
    };
    assert(ids@ =~= slot_type_ids(records, pv));
    // The header, first with the payloads placed at 0 to learn its size.
    let mut out = write_header(0, &recipe.types, &recipe.paths, &ids, &rel);
    let size = out.len();
    let ghost h0 = out@;
    let mut k: usize = 0;
    while k < body.len()
        invariant
            k <= body@.len(),
            h0.len() == size,
            out@ == h0 + body@.take(k as int),
        decreases body.len() - k,
    {
        out.push(body[k]);
        assert(body@.take(k + 1) =~= body@.take(k as int).push(body@[k as int]));
        k = k + 1;
    }
    assert(body@.take(body@.len() as int) =~= body@);
    let olen = out.len();
    let abs = place_payloads(size, olen, &rel, &body, Ghost(chunks));
    let header = write_header(size, &recipe.types, &recipe.paths, &ids, &abs);
    proof {
        lemma_slots_len(pv, ids@, rel@, ids@, abs@, pv.len());
        assert(header@.len() == size);
    }
    let ghost joined = out@;
    assert(joined.subrange(size as int, joined.len() as int) =~= body@);
    overwrite_prefix(&mut out, &header);
    let r: Result<Vec<u8>, PutkiError> = Ok(out);
    proof {
        lemma_layout(r->Ok_0@, joined, header@, body@, size, chunks, tv, pv, ids@, rel@, abs@);
        assert(r->Ok_0@ =~= header@ + body@);
        lemma_written_placed(r->Ok_0@, header@, body@, size, chunks, records, pv, refs);
    }
    r
}

/// A package is fixed by what goes into it: the same payloads, types,
/// paths and type ids lay out as the same bytes, with the same header
/// size.
pub proof fn law_layout_unique(
    b1: Seq<u8>,
    s1: usize,
    b2: Seq<u8>,
    s2: usize,
    chunks: Seq<Seq<u8>>,
    types: Seq<(usize, Seq<char>)>,
    paths: Seq<Seq<char>>,
    ids: Seq<usize>,
)
    requires
        package_layout(b1, s1, chunks, types, paths, ids),
        package_layout(b2, s2, chunks, types, paths, ids),
    ensures
        b1 == b2,
        s1 == s2,
{
    reveal(package_layout);
}

/// Each payload's writer was handed the payloads before it: placed after
/// a header, those are the bytes from the header's end to the payload.
proof fn lemma_written_placed<O: BinSaver>(
    bytes: Seq<u8>,
    header: Seq<u8>,
    body: Seq<u8>,
    size: usize,
    chunks: Seq<Seq<u8>>,
    records: Seq<BuildRecord<O>>,
    pv: Seq<Seq<char>>,
    refs: PackageRefs,
)
    requires
        bytes == header + body,
        header.len() == size,
        size + body.len() <= usize::MAX,
        chunks.len() == pv.len(),
        body == concat_bytes(chunks),
        forall|j: int|
            #![trigger payload_ranges(0, chunks)[j]]
            0 <= j < pv.len() ==> written_after(
                record_of(records, pv[j]).built().unwrap(),
                refs,
                body.take(payload_ranges(0, chunks)[j].0 as int),
            ),
    ensures
        forall|j: int|
            0 <= j < pv.len() ==> #[trigger] written_after(
                record_of(records, pv[j]).built().unwrap(),
                refs,
                bytes.subrange(size as int, payload_ranges(size as int, chunks)[j].0 as int),
            ),
{
    assert forall|j: int| 0 <= j < pv.len() implies #[trigger] written_after(
        record_of(records, pv[j]).built().unwrap(),
        refs,
        bytes.subrange(size as int, payload_ranges(size as int, chunks)[j].0 as int),
    ) by {
        lemma_concat_prefix_len(chunks, j);
        let x = concat_bytes(chunks.take(j)).len();
        assert(payload_ranges(0, chunks)[j].0 == x);
        assert(payload_ranges(size as int, chunks)[j].0 == size + x);
        assert(bytes.subrange(size as int, size + x) =~= body.take(x as int));
    }
}

proof fn lemma_layout(
    out: Seq<u8>,
    joined: Seq<u8>,
    header: Seq<u8>,
    body: Seq<u8>,
    size: usize,
    chunks: Seq<Seq<u8>>,
    tv: Seq<(usize, Seq<char>)>,
    pv: Seq<Seq<char>>,
    ids: Seq<usize>,
    rel: Seq<(usize, usize)>,
    abs: Seq<(usize, usize)>,
)
    requires
        chunks.len() == pv.len(),
        size == header_bytes(0, tv, pv, ids, rel).len(),
        rel == payload_ranges(0, chunks),
        abs == payload_ranges(size as int, chunks),
        header == header_bytes(size, tv, pv, ids, abs),
        header.len() == size,
        body == concat_bytes(chunks),
        joined.len() == size + body.len(),
        joined.subrange(size as int, joined.len() as int) == body,
        out == header + joined.subrange(size as int, joined.len() as int),
    ensures
        package_layout(out, size, chunks, tv, pv, ids),
{
    reveal(package_layout);
}

/// The slot references of the recipe's objects and their slots' type ids.
#[verifier::spinoff_prover]
fn slot_ids<L: ObjectLoader, O>(p: &Pipeline<L, O>, recipe: &PackageRecipe) -> (r: (PackageRefs, Vec<usize>))
    requires
        p.wf(),
    ensures
        r.0.slots() == slots_of(recipe.paths_view()),
        r.1@.len() == recipe.paths_view().len(),
        forall|j: int|
            0 <= j < recipe.paths_view().len() && record_paths(p.records()).contains(recipe.paths_view()[j])
                ==> r.1@[j] == #[trigger] slot_type_ids(p.records(), recipe.paths_view())[j],
{
    let ghost tv = recipe.types_view();
    let ghost pv = recipe.paths_view();
    let ghost records = p.records();
    let n = recipe.paths.len();
    let mut refs = PackageRefs::new();
    let mut ids: Vec<usize> = Vec::new();
    let mut i: usize = 0;
    while i < n
        invariant
            i <= n == recipe.paths@.len(),
            pv == recipe.paths_view(),
            tv == recipe.types_view(),
            records == p.records(),
            p.wf(),
            ids@.len() == i,
            refs.slots() == slots_of(pv.take(i as int)),
            forall|j: int|
                0 <= j < i && record_paths(records).contains(pv[j]) ==> ids@[j] == #[trigger] slot_type_ids(records, pv)[j],
        decreases n - i,
    {
        refs.insert(recipe.paths[i].clone(), i);
        assert(pv[i as int] == recipe.paths@[i as int]@);
        assert(pv.take(i + 1).drop_last() =~= pv.take(i as int));
        let id = match p.record(recipe.paths[i].as_str()) {
            Some(br) => {
                proof {
                    let k = choose|k: int| 0 <= k < records.len() && records[k] == *br;
                    lemma_record_of(records, k);
                }
                br.type_id()
            },
            None => 0,
        };
        ids.push(id);
        i = i + 1;
    }
    assert(pv.take(n as int) =~= pv);
    (refs, ids)
}

/// The payloads of the recipe's objects, appended in slot order, and
/// where each lies in the result.
#[verifier::spinoff_prover]
fn write_payloads<L: ObjectLoader, O: BinSaver>(p: &Pipeline<L, O>, recipe: &PackageRecipe, refs: &PackageRefs) -> (r:
    Result<(Vec<u8>, Vec<(usize, usize)>, Ghost<Seq<Seq<u8>>>), PutkiError>)
    requires
        p.wf(),
    ensures
        (exists|i: int|
            0 <= i < recipe.paths_view().len() && (!record_paths(p.records()).contains(recipe.paths_view()[i])
                || record_of(p.records(), recipe.paths_view()[i]).built() is None)) ==> r is Err,
        recipe.paths_view().len() == 0 ==> r is Ok,
        r matches Err(e) ==> payload_failure(p.records(), recipe.paths_view(), *refs, e),
        r matches Ok((body, rel, chunks)) ==> {
            &&& chunks@.len() == recipe.paths_view().len()
            &&& body@ == concat_bytes(chunks@)
            &&& rel@ == payload_ranges(0, chunks@)
            &&& forall|j: int|
                0 <= j < recipe.paths_view().len() ==> record_paths(p.records()).contains(
                    #[trigger] recipe.paths_view()[j],
                ) && record_of(p.records(), recipe.paths_view()[j]).built() is Some
        },
        r is Ok ==> forall|j: int|
            #![trigger r->Ok_0.1@[j]]
            0 <= j < recipe.paths_view().len() ==> written_after(
                record_of(p.records(), recipe.paths_view()[j]).built().unwrap(),
                *refs,
                r->Ok_0.0@.take(r->Ok_0.1@[j].0 as int),
            ),
{
    let ghost pv = recipe.paths_view();
    let ghost records = p.records();
    let n = recipe.paths.len();
    let mut body: Vec<u8> = Vec::new();
    let mut rel: Vec<(usize, usize)> = Vec::new();
    let ghost mut chunks: Seq<Seq<u8>> = Seq::empty();
    let mut i: usize = 0;
    while i < n
        invariant
            i <= n == recipe.paths@.len(),
            pv == recipe.paths_view(),
            records == p.records(),
            p.wf(),
            chunks.len() == i,
            rel@.len() == i,
            body@ == concat_bytes(chunks),
            forall|j: int|
                0 <= j < i ==> (#[trigger] rel@[j]).0 == concat_bytes(chunks.take(j)).len() && rel@[j].1
                    == concat_bytes(chunks.take(j + 1)).len(),
            forall|j: int|
                0 <= j < i ==> record_paths(records).contains(#[trigger] pv[j]) && record_of(records, pv[j]).built() is Some,
            forall|j: int|
                #![trigger rel@[j]]
                0 <= j < i ==> rel@[j].0 <= body@.len() && written_after(
                    record_of(records, pv[j]).built().unwrap(),
                    *refs,
                    body@.take(rel@[j].0 as int),
                ),
        decreases n - i,
    {
        assert(pv[i as int] == recipe.paths@[i as int]@);
        match p.record(recipe.paths[i].as_str()) {
            Some(br) => {
                proof {
                    let k = choose|k: int| 0 <= k < records.len() && records[k] == *br;
                    lemma_record_of(records, k);
                    assert(record_paths(records)[k] == pv[i as int]);
                }
                match br.built_object() {
                    Some(obj) => {
                        let b = body.len();
                        let ghost before = body@;
                        let w = write_saver(obj, &mut body, refs);
                        match w {
                            Ok(()) => {},
                            Err(e) => {
                                proof {
                                    assert(*obj == record_of(records, pv[i as int]).built().unwrap());
                                    assert(write_failed(*obj, *refs, before, e));
                                }
                                return Err(e);
                            },
                        }
                        let e = body.len();
                        proof {
                            let c = body@.subrange(b as int, e as int);
                            let nc = chunks.push(c);
                            assert(body@ =~= before + c);
                            assert(nc.drop_last() =~= chunks);
                            assert(nc.take(i as int) =~= chunks);
                            assert(nc.take(i + 1) =~= nc);
                            assert forall|j: int| 0 <= j < i implies #[trigger] nc.take(j) =~= chunks.take(j) && nc.take(
                                j + 1,
                            ) =~= chunks.take(j + 1) by {}
                            chunks = nc;
                        }
                        let ghost old_rel = rel@;
                        rel.push((b, e));
                        proof {
                            assert(body@.take(b as int) =~= before);
                            assert(w is Ok);
                            assert(*obj == record_of(records, pv[i as int]).built().unwrap());
                            assert forall|j: int| #![trigger rel@[j]] 0 <= j < i + 1 implies rel@[j].0 <= body@.len() && written_after(
                                record_of(records, pv[j]).built().unwrap(),
                                *refs,
                                body@.take(rel@[j].0 as int),
                            ) by {
                                if j < i {
                                    assert(rel@[j] == old_rel[j]);
                                    assert(old_rel[j].0 <= before.len());
                                    assert(body@.take(rel@[j].0 as int) =~= before.take(rel@[j].0 as int));
                                }
                            }
                        }
                    },
                    None => {
                        return Err(PutkiError::ObjectNotFound);
                    },
                }
            },
            None => {
                return Err(PutkiError::ObjectNotFound);
            },
        }
        i = i + 1;
    }
    proof {
        assert forall|j: int| 0 <= j < n implies #[trigger] rel@[j] == payload_ranges(0, chunks)[j] by {
            lemma_concat_prefix_len(chunks, j + 1);
            lemma_concat_prefix_len(chunks, j);
        }
        assert(rel@ =~= payload_ranges(0, chunks));
    }
    let ghost bv = body@;
    let ghost rv = rel@;
    let res: Result<(Vec<u8>, Vec<(usize, usize)>, Ghost<Seq<Seq<u8>>>), PutkiError> = Ok((body, rel, Ghost(chunks)));
    assert(res->Ok_0.0@ == bv && res->Ok_0.1@ == rv);
    res
}

/// Writes `obj` at the end of `data` by its own `write`; when that
/// succeeds, the object was written after what `data` held.
fn write_saver<O: BinSaver>(obj: &O, data: &mut Vec<u8>, refs: &PackageRefs) -> (r: Result<(), PutkiError>)
    ensures
        appends(old(data)@, final(data)@),
        r is Ok ==> written_after(*obj, *refs, old(data)@),
        r matches Err(e) ==> write_failed(*obj, *refs, old(data)@, e),
{
    let r = obj.write(data, refs);
    proof {
        if r is Ok {
            assert(r->Ok_0 == ());
            assert(r == Ok::<(), PutkiError>(()));
        }
    }
    r
}

/// The payloads' places once they follow a header `size` bytes long.
fn place_payloads(size: usize, total: usize, rel: &Vec<(usize, usize)>, body: &Vec<u8>, chunks: Ghost<Seq<Seq<u8>>>) -> (r:
    Vec<(usize, usize)>)
    requires
        rel@ == payload_ranges(0, chunks@),
        body@ == concat_bytes(chunks@),
        total == size + body@.len(),
    ensures
        r@ == payload_ranges(size as int, chunks@),
{
    let mut abs: Vec<(usize, usize)> = Vec::new();
    let mut j: usize = 0;
    while j < rel.len()
        invariant
            j <= rel@.len(),
            rel@ == payload_ranges(0, chunks@),
            body@ == concat_bytes(chunks@),
            total == size + body@.len(),
            abs@.len() == j,
            forall|q: int| 0 <= q < j ==> #[trigger] abs@[q] == payload_ranges(size as int, chunks@)[q],
        decreases rel@.len() - j,
    {
        proof {
            lemma_concat_prefix_len(chunks@, j + 1);
            lemma_concat_prefix_len(chunks@, j as int);
        }
        abs.push((size + rel[j].0, size + rel[j].1));
        j = j + 1;
    }
    assert(abs@ =~= payload_ranges(size as int, chunks@));
    abs
}

/// `out` with its first bytes replaced by `header`.
fn overwrite_prefix(out: &mut Vec<u8>, header: &Vec<u8>)
    requires
        header@.len() <= old(out)@.len(),
    ensures
        final(out)@ == header@ + old(out)@.subrange(header@.len() as int, old(out)@.len() as int),
{
    let mut q: usize = 0;
    while q < header.len()
        invariant
            q <= header@.len() <= out@.len(),
            out@.len() == old(out)@.len(),
            forall|x: int| 0 <= x < q ==> #[trigger] out@[x] == header@[x],
            forall|x: int| q <= x < out@.len() ==> #[trigger] out@[x] == old(out)@[x],
        decreases header@.len() - q,
    {
        out.set(q, header[q]);
        q = q + 1;
    }
    assert(out@ =~= header@ + old(out)@.subrange(header@.len() as int, old(out)@.len() as int));
}

/// The payloads before the `m`-th make up no more than all of them.
pub(crate) proof fn lemma_concat_prefix_len(s: Seq<Seq<u8>>, m: int)
    requires
        0 <= m <= s.len(),
    ensures
        concat_bytes(s.take(m)).len() <= concat_bytes(s).len(),
    decreases s.len(),
{
    if m < s.len() {
        assert(s.take(m) =~= s.drop_last().take(m));
        lemma_concat_prefix_len(s.drop_last(), m);
    } else {
        assert(s.take(m) =~= s);
    }
}

} // verus!
