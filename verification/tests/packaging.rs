use putki::binreader::{BinDataStream, BinReader};
use putki::manifest::{Corruption, OutkiError, PackageManifest};
use std::sync::Arc;
use putki::loadall::LoadAll;
use putki::lexed::LexedKv;
use putki::lexer::get_int;
use putki::pipeline::{
    write_package, BuildCandidate, BuildFields, BuildRecord, BuildResultObj, InkiObj, PackageRecipe, Pipeline,
    PipelineDesc, PtrBox,
};
use putki::ptr::{Ptr, Tracker};
use putki::shared::{PutkiError, TypeDescriptor};
use putki::source::{InkiResolver, ObjectLoader, ParseFromKV, WriteAsText};
use putki::writer::{insert_value, BinSaver, BinWriter, PackageRefs};

#[test]
fn primitives_are_little_endian() {
    let mut d = Vec::new();
    (-1i32).write(&mut d);
    0x0102u16.write(&mut d);
    0x01020304u32.write(&mut d);
    7usize.write(&mut d);
    true.write(&mut d);
    false.write(&mut d);
    9u8.write(&mut d);
    assert_eq!(
        d,
        vec![255, 255, 255, 255, 2, 1, 4, 3, 2, 1, 7, 0, 0, 0, 0, 0, 0, 0, 1, 0, 9]
    );
}

#[test]
fn strings_and_arrays_carry_their_length() {
    let mut d = Vec::new();
    "ab".write(&mut d);
    String::from("\u{e5}").write(&mut d);
    vec![1u8, 2u8].write(&mut d);
    assert_eq!(
        d,
        vec![2, 0, 0, 0, 0, 0, 0, 0, 97, 98, 2, 0, 0, 0, 0, 0, 0, 0, 0xc3, 0xa5, 2, 0, 0, 0, 0, 0, 0, 0, 1, 2]
    );
}

#[test]
fn insert_value_overwrites_in_place() {
    let mut d = vec![0u8; 12];
    insert_value(&mut d, 2, 0x0a0b0c0du32);
    assert_eq!(d, vec![0, 0, 0x0d, 0x0c, 0x0b, 0x0a, 0, 0, 0, 0, 0, 0]);
}

#[derive(Clone, Default)]
struct Thing {
    v: i32,
}

impl TypeDescriptor for Thing {
    const TAG: &'static str = "Thing";
    const TYPE_ID: usize = 7;
}

impl BinSaver for Thing {
    fn write(&self, data: &mut Vec<u8>, _refs: &PackageRefs) -> Result<(), PutkiError> {
        self.v.write(data);
        Ok(())
    }
}

impl WriteAsText for Thing {
    fn write_text(&self, output: &mut String) -> Result<(), PutkiError> {
        output.push_str(&format!("{{v:{}}}", self.v));
        Ok(())
    }
}

impl<L: ObjectLoader> ParseFromKV<L> for Thing {
    fn parse(kv: &LexedKv, _resolver: &Arc<InkiResolver<L>>) -> Self {
        Thing { v: get_int(kv.get("v"), 0) }
    }
}

type Built = PtrBox<Thing, LoadAll>;

impl BuildFields<LoadAll, Built> for Thing {}

// Building doubles the value; a negative value fails the build, and a
// value of 5 depends on the object "b".
impl BuildCandidate<LoadAll, Built> for Thing {
    fn build(&mut self, p: &mut Pipeline<LoadAll, Built>, br: &mut BuildRecord<Built>) -> Result<(), PutkiError> {
        if self.v == 5 {
            let dep: Ptr<Thing, LoadAll> = p.make_src_ptr("b");
            p.add_output_dependency(br, &dep);
        }
        self.v *= 2;
        if self.v < 0 {
            return Err(PutkiError::Test);
        }
        Ok(())
    }
}

impl InkiObj<LoadAll, Built> for Thing {}

fn boxed(path: &str, v: i32) -> Built {
    PtrBox { ptr: Ptr::new_temp_object(path, Arc::new(Thing { v })) }
}

#[test]
fn pointers_are_written_as_slot_references() {
    let la = Arc::new(LoadAll::from_txty_data("@Thing a { }"));
    let resolver = Arc::new(InkiResolver::new(la));
    let mut refs = PackageRefs::new();
    refs.insert(String::from("a"), 3);
    refs.insert(String::from("b"), 4);
    refs.insert(String::from("a"), 5);
    assert_eq!(refs.slot_of("a"), Some(5));
    assert_eq!(refs.slot_of("c"), None);
    let mut d = Vec::new();
    let p: Ptr<Thing, LoadAll> = Ptr::new(resolver.clone(), "a");
    p.write(&mut d, &refs).unwrap();
    let missing: Ptr<Thing, LoadAll> = Ptr::new(resolver, "c");
    missing.write(&mut d, &refs).unwrap();
    let null: Ptr<Thing, LoadAll> = Ptr::null();
    null.write(&mut d, &refs).unwrap();
    assert_eq!(d, vec![5, 0, 0, 0, 255, 255, 255, 255, 255, 255, 255, 255]);
}

fn pipeline() -> Pipeline<LoadAll, Built> {
    let la = Arc::new(LoadAll::from_txty_data("@Thing a { } @Thing b { }"));
    Pipeline::new(PipelineDesc::new(la, "res"))
}

#[test]
fn each_path_is_queued_once_in_order() {
    let mut p = pipeline();
    p.build_as::<Thing>("a");
    p.build_as::<Thing>("b");
    p.build_as::<Thing>("a");
    let first = p.take().unwrap();
    assert_eq!(first.path, "a");
    assert_eq!(first.type_tag, "Thing");
    assert_eq!(p.take().unwrap().path, "b");
    assert!(p.take().is_none());
    assert!(!p.insert_path_to_build("a"));
    assert!(p.insert_path_to_build("c"));
}

#[test]
fn records_are_kept_by_path() {
    let mut p = pipeline();
    let mut r = BuildRecord::new("a", "Thing", 7, "res");
    r.follow("x");
    r.follow("x");
    r.set_built_object(boxed("a", 1));
    p.on_build_done(r);
    let mut r2 = BuildRecord::new("a", "Thing", 7, "res");
    r2.set_built_object(boxed("a", 2));
    r2.fail(String::from("bad"));
    p.on_build_done(r2);
    assert_eq!(p.peek_build_records().len(), 1);
    let rec = p.record("a").unwrap();
    assert!(!rec.is_ok());
    assert_eq!(rec.get_path(), "a");
    assert_eq!(rec.built_object().unwrap().ptr.get_owned_object().unwrap().v, 2);
    assert!(p.record("b").is_none());
}

#[test]
fn created_objects_are_filed_under_the_record() {
    let mut r: BuildRecord<Built> = BuildRecord::new("a/b", "Thing", 7, "res");
    let ptr: Ptr<Thing, LoadAll> = r.create_object("extra", Thing { v: 4 });
    assert_eq!(ptr.get_target_path(), Some("a/b!extra"));
    assert_eq!(ptr.get_owned_object().unwrap().v, 4);
}

#[test]
fn dependencies_are_queued_and_recorded() {
    let mut p = pipeline();
    let mut r: BuildRecord<Built> = BuildRecord::new("a", "Thing", 7, "res");
    let dep: Ptr<Thing, LoadAll> = p.make_src_ptr("b");
    p.add_output_dependency(&mut r, &dep);
    p.add_output_dependency(&mut r, &dep);
    assert_eq!(r.deps(), &vec![String::from("b")]);
    assert_eq!(p.take().unwrap().path, "b");
    assert!(p.take().is_none());
}

fn built(path: &str, v: i32, deps: &[&str]) -> BuildRecord<Built> {
    let mut r = BuildRecord::new(path, "Thing", 7, "res");
    for d in deps {
        r.add_dep(d);
    }
    r.set_built_object(boxed(path, v));
    r
}

#[test]
fn the_recipe_follows_dependencies() {
    let mut p = pipeline();
    p.on_build_done(built("a", 1, &["b"]));
    p.on_build_done(built("b", 2, &["a"]));
    let mut recipe = PackageRecipe::new();
    recipe.add_object(&p, "a", true).unwrap();
    assert!(matches!(recipe.add_object(&p, "zzz", true), Err(PutkiError::ObjectNotFound)));
    let bytes = write_package(&p, &recipe).unwrap();
    let mut expect: Vec<u8> = Vec::new();
    let header_size: usize = 4 + 4 + 8 + 8 + (8 + 8 + 5) + 8 + 2 * (4 + (8 + 1) + 8 + 8 + 8);
    0x494B5450u32.write(&mut expect);
    1u32.write(&mut expect);
    header_size.write(&mut expect);
    1usize.write(&mut expect);
    7usize.write(&mut expect);
    "Thing".write(&mut expect);
    2usize.write(&mut expect);
    for (i, path) in ["a", "b"].iter().enumerate() {
        3u32.write(&mut expect);
        path.write(&mut expect);
        7usize.write(&mut expect);
        (header_size + 4 * i).write(&mut expect);
        (header_size + 4 * i + 4).write(&mut expect);
    }
    1i32.write(&mut expect);
    2i32.write(&mut expect);
    assert_eq!(bytes, expect);
}

#[test]
fn the_reader_parses_what_the_writer_writes() {
    let mut p = pipeline();
    p.on_build_done(built("a", 1, &["b"]));
    p.on_build_done(built("b", 2, &[]));
    let mut recipe = PackageRecipe::new();
    recipe.add_object(&p, "a", true).unwrap();
    let bytes = write_package(&p, &recipe).unwrap();
    let m = PackageManifest::parse(&bytes).unwrap();
    assert_eq!(m.manifest_size, bytes.len() - 8);
    assert_eq!(m.types.len(), 1);
    assert_eq!(m.types[0].id, 7);
    assert_eq!(m.types[0].name, "Thing");
    assert_eq!(m.slots.len(), 2);
    assert_eq!(m.slots[0].path.as_deref(), Some("a"));
    assert_eq!(m.slots[1].path.as_deref(), Some("b"));
    for (i, s) in m.slots.iter().enumerate() {
        assert_eq!(s.flags, 3);
        assert_eq!(s.type_id, 7);
        assert_eq!(s.begin, m.manifest_size + 4 * i);
        assert_eq!(s.end, m.manifest_size + 4 * i + 4);
    }
    assert_eq!(&bytes[m.slots[0].begin..m.slots[0].end], &[1, 0, 0, 0]);
    assert_eq!(&bytes[m.slots[1].begin..m.slots[1].end], &[2, 0, 0, 0]);
    let empty = write_package(&p, &PackageRecipe::new()).unwrap();
    assert_eq!(empty[0], 0x50);
    assert!(PackageManifest::parse(&empty).unwrap().slots.is_empty());
}

#[test]
fn a_missing_object_fails_the_package() {
    let mut p = pipeline();
    p.on_build_done(built("a", 1, &["b"]));
    let mut recipe = PackageRecipe::new();
    assert!(matches!(recipe.add_object(&p, "a", true), Err(PutkiError::ObjectNotFound)));
    let mut recipe = PackageRecipe::new();
    recipe.add_object(&p, "a", false).unwrap();
    assert_eq!(write_package(&p, &recipe).unwrap().len(), 16 + 8 + (8 + 13) + 8 + 37 + 4);
    p.on_build_done(BuildRecord::new("c", "Thing", 7, "res"));
    let mut recipe = PackageRecipe::new();
    recipe.add_object(&p, "c", false).unwrap();
    assert!(matches!(write_package(&p, &recipe), Err(PutkiError::ObjectNotFound)));
}

#[test]
fn the_reader_reads_what_the_writer_writes() {
    let mut d = Vec::new();
    0xdeadbeefu32.write(&mut d);
    12345usize.write(&mut d);
    String::from("h\u{e5}llo").write(&mut d);
    (-7i32).write(&mut d);
    true.write(&mut d);
    vec![3u16, 4u16].write(&mut d);
    let mut s = BinDataStream::new(&d);
    assert_eq!(u32::read(&mut s).unwrap(), 0xdeadbeef);
    assert_eq!(usize::read(&mut s).unwrap(), 12345);
    assert_eq!(String::read(&mut s).unwrap(), "h\u{e5}llo");
    assert_eq!(i32::read(&mut s).unwrap(), -7);
    assert_eq!(bool::read(&mut s).unwrap(), true);
    assert_eq!(Vec::<u16>::read(&mut s).unwrap(), vec![3, 4]);
    assert_eq!(s.remaining(), 0);
    assert!(u8::read(&mut s).is_err());
}

#[test]
fn a_high_word_is_rejected() {
    let d = [1u8, 0, 0, 0, 1, 0, 0, 0];
    let mut s = BinDataStream::new(&d);
    assert_eq!(usize::read(&mut s), Err(OutkiError::CorruptPackage(Corruption::OversizedLength)));
    let bad = [2u8, 0, 0, 0, 0, 0, 0, 0, 0xff, 0xfe];
    let mut s = BinDataStream::new(&bad);
    assert_eq!(String::read(&mut s), Err(OutkiError::CorruptPackage(Corruption::InvalidUtf8)));
}

fn build_all(p: &mut Pipeline<LoadAll, Built>) {
    while let Some(req) = p.take() {
        req.invoker.build(p, &req);
    }
}

#[test]
fn queued_objects_are_built_and_packaged() {
    let la = Arc::new(LoadAll::from_txty_data("@Thing a { v: 5 } @Thing b { v: 21 } @Thing c { v: -1 }"));
    let mut p: Pipeline<LoadAll, Built> = Pipeline::new(PipelineDesc::new(la, "res"));
    p.build_as::<Thing>("a");
    p.build_as::<Thing>("c");
    build_all(&mut p);
    assert_eq!(p.peek_build_records().len(), 3);
    let a = p.record("a").unwrap();
    assert!(a.is_ok());
    assert_eq!(a.tag(), "Thing");
    assert_eq!(a.deps(), &vec![String::from("b")]);
    assert_eq!(a.built_object().unwrap().ptr.get_owned_object().unwrap().v, 10);
    assert_eq!(a.built_object().unwrap().ptr.get_target_path(), Some("a"));
    let b = p.record("b").unwrap();
    assert!(b.is_ok());
    assert_eq!(b.built_object().unwrap().ptr.get_owned_object().unwrap().v, 42);
    let c = p.record("c").unwrap();
    assert!(!c.is_ok());
    assert_eq!(c.built_object().unwrap().ptr.get_owned_object().unwrap().v, -2);

    let mut out = String::new();
    a.built_object().unwrap().write_object(&mut out).unwrap();
    assert_eq!(out, "{v:10}");

    let mut recipe = PackageRecipe::new();
    recipe.add_object(&p, "a", true).unwrap();
    let bytes = write_package(&p, &recipe).unwrap();
    let tail = &bytes[bytes.len() - 8..];
    assert_eq!(tail, &[10, 0, 0, 0, 42, 0, 0, 0]);
}

#[test]
fn a_box_without_an_object_writes_nothing() {
    let la = Arc::new(LoadAll::from_txty_data("@Thing a { v: 1 }"));
    let p: Pipeline<LoadAll, Built> = Pipeline::new(PipelineDesc::new(la, "res"));
    let b: Built = PtrBox { ptr: p.make_src_ptr("a") };
    let mut d = vec![7u8];
    assert!(matches!(b.write(&mut d, &PackageRefs::new()), Err(PutkiError::ObjectNotFound)));
    assert_eq!(d, vec![7u8]);
    let mut s = String::from("x");
    assert!(matches!(b.write_object(&mut s), Err(PutkiError::ObjectNotFound)));
    assert_eq!(s, "x");
}
